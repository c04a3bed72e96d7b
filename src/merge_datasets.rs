use crate::data_processing::DataPoint;
use vstd::prelude::*;

verus! {

/// An inflation observation joined with the interest rate of the same date.
pub struct CombinedDataPoint {
    pub date: String,
    pub inflation_rate: i64,
    pub interest_rate: i64,
}

impl View for CombinedDataPoint {
    type V = (Seq<char>, i64, i64);

    open spec fn view(&self) -> (Seq<char>, i64, i64) {
        (self.date@, self.inflation_rate, self.interest_rate)
    }
}

/// Position of the first entry of `rates`, from position `i` on, whose date is
/// `date`; -1 where there is none.
pub open spec fn first_match_from(rates: Seq<(Seq<char>, i64)>, date: Seq<char>, i: int) -> int
    decreases rates.len() - i,
{
    if i < 0 || i >= rates.len() {
        -1
    } else if rates[i].0 == date {
        i
    } else {
        first_match_from(rates, date, i + 1)
    }
}

/// The join of the first `n` inflation entries with `rates`: each entry whose
/// date occurs in `rates` gives one record, with the first such rate.
pub open spec fn combined(inflation: Seq<(Seq<char>, i64)>, rates: Seq<(Seq<char>, i64)>, n: int) -> Seq<
    (Seq<char>, i64, i64),
>
    decreases n,
{
    if n <= 0 {
        Seq::empty()
    } else {
        let prev = combined(inflation, rates, n - 1);
        let j = first_match_from(rates, inflation[n - 1].0, 0);
        if j >= 0 {
            prev.push((inflation[n - 1].0, inflation[n - 1].1, rates[j].1))
        } else {
            prev
        }
    }
}

/// The positions, among the first `n` inflation entries, of those that the
/// join keeps.
pub open spec fn kept_positions(
    inflation: Seq<(Seq<char>, i64)>,
    rates: Seq<(Seq<char>, i64)>,
    n: int,
) -> Seq<int>
    decreases n,
{
    if n <= 0 {
        Seq::empty()
    } else {
        let prev = kept_positions(inflation, rates, n - 1);
        if first_match_from(rates, inflation[n - 1].0, 0) >= 0 {
            prev.push(n - 1)
        } else {
            prev
        }
    }
}

/// Joins the two series on equal dates. Each inflation entry, in order, gives
/// one record when some rate entry has its date, holding the first such rate;
/// the others are dropped.
pub fn combine_datasets(inflation_data: Vec<DataPoint>, interest_rate_data: Vec<DataPoint>) -> (r:
    Vec<CombinedDataPoint>)
    ensures
        r@.map_values(|c: CombinedDataPoint| c@) == combined(
            inflation_data@.map_values(|d: DataPoint| d@),
            interest_rate_data@.map_values(|d: DataPoint| d@),
            inflation_data@.len() as int,
        ),
{
    let ghost inf = inflation_data@.map_values(|d: DataPoint| d@);
    let ghost rates = interest_rate_data@.map_values(|d: DataPoint| d@);
    let mut combined_data: Vec<CombinedDataPoint> = Vec::new();
    let n = inflation_data.len();
    let m = interest_rate_data.len();
    let mut i: usize = 0;
    while i < n
        invariant
            i <= n,
            n == inflation_data@.len(),
            m == interest_rate_data@.len(),
            inf == inflation_data@.map_values(|d: DataPoint| d@),
            rates == interest_rate_data@.map_values(|d: DataPoint| d@),
            combined_data@.map_values(|c: CombinedDataPoint| c@) == combined(inf, rates, i as int),
        decreases n - i,
    {
        let inflation_dp = &inflation_data[i];
        let mut j: usize = 0;
        while j < m && !(interest_rate_data[j].date == inflation_dp.date)
            invariant
                j <= m,
                m == interest_rate_data@.len(),
                rates == interest_rate_data@.map_values(|d: DataPoint| d@),
                first_match_from(rates, inflation_dp.date@, 0) == first_match_from(
                    rates,
                    inflation_dp.date@,
                    j as int,
                ),
            decreases m - j,
        {
            j = j + 1;
        }
        proof {
            assert(inf[i as int].0 == inflation_dp.date@);
        }
        if j < m {
            let ghost before = combined_data@.map_values(|c: CombinedDataPoint| c@);
            combined_data.push(
                CombinedDataPoint {
                    date: inflation_dp.date.clone(),
                    inflation_rate: inflation_dp.value,
                    interest_rate: interest_rate_data[j].value,
                },
            );
            proof {
                assert(combined_data@.map_values(|c: CombinedDataPoint| c@) == before.push(
                    combined_data@.last()@,
                ));
            }
        }
        i = i + 1;
    }
    combined_data
}

/// The join keeps the order of the inflation series and is never longer than
/// it: its records come from strictly increasing positions of that series, and
/// each holds the date and inflation rate found there.
pub proof fn lemma_combine_keeps_order(
    inflation: Seq<(Seq<char>, i64)>,
    rates: Seq<(Seq<char>, i64)>,
    n: int,
)
    requires
        0 <= n <= inflation.len(),
    ensures
        combined(inflation, rates, n).len() == kept_positions(inflation, rates, n).len(),
        combined(inflation, rates, n).len() <= n,
        forall|a: int, b: int|
            0 <= a < b < kept_positions(inflation, rates, n).len() ==> #[trigger] kept_positions(
                inflation,
                rates,
                n,
            )[a] < #[trigger] kept_positions(inflation, rates, n)[b],
        forall|k: int|
            0 <= k < combined(inflation, rates, n).len() ==> {
                let p = #[trigger] kept_positions(inflation, rates, n)[k];
                &&& 0 <= p < n
                &&& combined(inflation, rates, n)[k].0 == inflation[p].0
                &&& combined(inflation, rates, n)[k].1 == inflation[p].1
            },
    decreases n,
{
    if n > 0 {
        lemma_combine_keeps_order(inflation, rates, n - 1);
    }
}

} // verus!
