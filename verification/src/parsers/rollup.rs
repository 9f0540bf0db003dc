//! What is made of the records of many files: one sequence in order, the
//! records of one day, the list of instruments, and totals.

use crate::arrange::{
    arrange_by_two, comes_before_by_two, key_values, lemma_stable_order_by_two,
    positions, stable_order_by_two,
};
use crate::calendar::{DateView, TradingDate};
use crate::parsers::tdx_day::{pick, rearranged, RecordView, TDXDayParser, TDXDayRecord, views};
use crate::parsers::utils::{is_symbol, ValidationUtils};
use crate::processors::groups::{lemma_rank_keys, rank_keys, text_ranks, text_views};
use crate::text::lex_less;
use vstd::prelude::*;
use vstd::string::*;

verus! {

/// Totals over the files of a data directory.
#[derive(Clone, Copy, Debug, PartialEq, Eq)]
pub struct TDXStatistics {
    /// The number of instruments that have a file.
    pub total_stocks: usize,
    /// The number of records in the files that could be read.
    pub total_records: usize,
    /// The number of instruments of the first market. It is not counted.
    pub sh_count: usize,
    /// The number of instruments of the second market. It is not counted.
    pub sz_count: usize,
    /// The earliest first day of a file.
    pub earliest_date: Option<TradingDate>,
    /// The latest first day of a file.
    pub latest_date: Option<TradingDate>,
    /// The size of the files, in bytes.
    pub data_size_bytes: u64,
}

/// What the records of each file hold.
pub open spec fn file_views(files: Seq<Vec<TDXDayRecord>>) -> Seq<Seq<RecordView>> {
    Seq::new(files.len(), |k: int| views(files[k]@))
}

/// The records of all files, file after file.
pub open spec fn gathered(files: Seq<Seq<RecordView>>) -> Seq<RecordView>
    decreases files.len(),
{
    if files.len() == 0 {
        Seq::empty()
    } else {
        gathered(files.drop_last()) + files.last()
    }
}

/// The symbols of the records.
pub open spec fn symbols_of(records: Seq<RecordView>) -> Seq<Seq<char>> {
    Seq::new(records.len(), |i: int| records[i].symbol)
}

/// The markets of the records.
pub open spec fn markets_of(records: Seq<RecordView>) -> Seq<Seq<char>> {
    Seq::new(records.len(), |i: int| records[i].market)
}

/// For each record, its day and behind it the rank of its symbol.
pub open spec fn day_and_symbol_keys(records: Seq<RecordView>) -> Seq<int> {
    Seq::new(
        records.len(),
        |i: int|
            records[i].date.number() * 0x1_0000_0000_0000_0000 + rank_keys(symbols_of(records))[i],
    )
}

/// The records by day, then by symbol, then by market, the last two in the
/// order of the dictionary; records equal in all three in the order in
/// which they stand in `records`.
pub open spec fn by_day_symbol_market(records: Seq<RecordView>) -> Seq<RecordView> {
    rearranged(
        records,
        stable_order_by_two(day_and_symbol_keys(records), rank_keys(markets_of(records))),
    )
}

/// Whether `b` may stand behind `a` in the order of day, symbol and
/// market.
pub open spec fn may_follow(a: RecordView, b: RecordView) -> bool {
    &&& a.date.number() <= b.date.number()
    &&& a.date.number() == b.date.number() ==> !lex_less(b.symbol, a.symbol)
    &&& a.date.number() == b.date.number() && a.symbol == b.symbol ==> !lex_less(
        b.market,
        a.market,
    )
}

/// Merged records stand by day, then symbol, then market, and they are
/// the records that were handed in.
pub proof fn lemma_merged(records: Seq<RecordView>)
    requires
        records.len() < 0x1_0000_0000_0000_0000,
    ensures
        by_day_symbol_market(records).len() == records.len(),
        forall|p: int, q: int|
            0 <= p < q < records.len() ==> may_follow(
                #[trigger] by_day_symbol_market(records)[p],
                #[trigger] by_day_symbol_market(records)[q],
            ),
        forall|i: int|
            0 <= i < records.len() ==> by_day_symbol_market(records).contains(#[trigger] records[i]),
{
    let major = day_and_symbol_keys(records);
    let minor = rank_keys(markets_of(records));
    let order = stable_order_by_two(major, minor);
    let merged = by_day_symbol_market(records);
    lemma_stable_order_by_two(major, minor);
    assert forall|p: int, q: int| 0 <= p < q < records.len() implies may_follow(
        #[trigger] merged[p],
        #[trigger] merged[q],
    ) by {
        let i = order[p];
        let j = order[q];
        assert(comes_before_by_two(major, minor, i, j));
        lemma_rank_keys(symbols_of(records), i, j);
        lemma_rank_keys(symbols_of(records), j, i);
        lemma_rank_keys(markets_of(records), i, j);
        lemma_rank_keys(markets_of(records), j, i);
    }
    assert forall|i: int| 0 <= i < records.len() implies merged.contains(#[trigger] records[i]) by {
        assert(order.contains(i));
        let p = choose|p: int| 0 <= p < order.len() && order[p] == i;
        assert(merged[p] == records[i]);
    }
}

/// The records of `records` that are of the day `day`, in their order.
pub open spec fn on_day(records: Seq<RecordView>, day: DateView) -> Seq<RecordView>
    decreases records.len(),
{
    if records.len() == 0 {
        Seq::empty()
    } else {
        let before = on_day(records.drop_last(), day);
        if records.last().date == day {
            before.push(records.last())
        } else {
            before
        }
    }
}

/// The number of records in all files.
pub open spec fn record_total(files: Seq<Seq<RecordView>>) -> int
    decreases files.len(),
{
    if files.len() == 0 {
        0
    } else {
        record_total(files.drop_last()) + files.last().len()
    }
}

/// The earliest of the first days of the files that are not empty.
pub open spec fn earliest_start(files: Seq<Seq<RecordView>>) -> Option<DateView>
    decreases files.len(),
{
    if files.len() == 0 {
        None
    } else {
        let before = earliest_start(files.drop_last());
        if files.last().len() == 0 {
            before
        } else {
            match before {
                Some(day) if day.number() <= files.last()[0].date.number() => before,
                _ => Some(files.last()[0].date),
            }
        }
    }
}

/// The latest of the first days of the files that are not empty.
pub open spec fn latest_start(files: Seq<Seq<RecordView>>) -> Option<DateView>
    decreases files.len(),
{
    if files.len() == 0 {
        None
    } else {
        let before = latest_start(files.drop_last());
        if files.last().len() == 0 {
            before
        } else {
            match before {
                Some(day) if day.number() >= files.last()[0].date.number() => before,
                _ => Some(files.last()[0].date),
            }
        }
    }
}

/// A day that may be absent, as what it holds.
pub open spec fn day_view(day: Option<TradingDate>) -> Option<DateView> {
    match day {
        Some(d) => Some(d@),
        None => None,
    }
}

/// What each pair of texts holds.
pub open spec fn pair_views(pairs: Seq<(String, String)>) -> Seq<(Seq<char>, Seq<char>)> {
    Seq::new(pairs.len(), |i: int| (pairs[i].0@, pairs[i].1@))
}

/// The pairs whose first text is an instrument identifier, in their order.
pub open spec fn listed(pairs: Seq<(Seq<char>, Seq<char>)>) -> Seq<(Seq<char>, Seq<char>)>
    decreases pairs.len(),
{
    if pairs.len() == 0 {
        Seq::empty()
    } else {
        let before = listed(pairs.drop_last());
        if is_symbol(pairs.last().0) {
            before.push(pairs.last())
        } else {
            before
        }
    }
}

/// The first texts of the pairs.
pub open spec fn firsts(pairs: Seq<(Seq<char>, Seq<char>)>) -> Seq<Seq<char>> {
    Seq::new(pairs.len(), |i: int| pairs[i].0)
}

/// The second texts of the pairs.
pub open spec fn seconds(pairs: Seq<(Seq<char>, Seq<char>)>) -> Seq<Seq<char>> {
    Seq::new(pairs.len(), |i: int| pairs[i].1)
}

/// The pairs by their first text, then by their second, both in the order
/// of the dictionary.
pub open spec fn in_dictionary_order(pairs: Seq<(Seq<char>, Seq<char>)>) -> Seq<
    (Seq<char>, Seq<char>),
> {
    let order = stable_order_by_two(rank_keys(firsts(pairs)), rank_keys(seconds(pairs)));
    Seq::new(pairs.len(), |p: int| pairs[order[p]])
}

/// Pairs in the order of the dictionary never go back, neither in their
/// first text nor, where that is the same, in their second.
pub proof fn lemma_dictionary_order(pairs: Seq<(Seq<char>, Seq<char>)>)
    ensures
        in_dictionary_order(pairs).len() == pairs.len(),
        forall|p: int, q: int|
            0 <= p < q < pairs.len() ==> !lex_less(
                (#[trigger] in_dictionary_order(pairs)[q]).0,
                (#[trigger] in_dictionary_order(pairs)[p]).0,
            ) && (in_dictionary_order(pairs)[p].0 == in_dictionary_order(pairs)[q].0 ==> !lex_less(
                in_dictionary_order(pairs)[q].1,
                in_dictionary_order(pairs)[p].1,
            )),
{
    let major = rank_keys(firsts(pairs));
    let minor = rank_keys(seconds(pairs));
    let order = stable_order_by_two(major, minor);
    let sorted = in_dictionary_order(pairs);
    lemma_stable_order_by_two(major, minor);
    assert forall|p: int, q: int| 0 <= p < q < pairs.len() implies !lex_less(
        (#[trigger] sorted[q]).0,
        (#[trigger] sorted[p]).0,
    ) && (sorted[p].0 == sorted[q].0 ==> !lex_less(sorted[q].1, sorted[p].1)) by {
        let i = order[p];
        let j = order[q];
        assert(comes_before_by_two(major, minor, i, j));
        lemma_rank_keys(firsts(pairs), i, j);
        lemma_rank_keys(firsts(pairs), j, i);
        lemma_rank_keys(seconds(pairs), i, j);
        lemma_rank_keys(seconds(pairs), j, i);
    }
}

impl TDXDayParser {
    /// Puts the records of many files into one sequence by day, then
    /// symbol, then market.
    pub fn merge_records(&self, files: &Vec<Vec<TDXDayRecord>>) -> (merged: Vec<TDXDayRecord>)
        ensures
            views(merged@) == by_day_symbol_market(gathered(file_views(files@))),
            forall|p: int, q: int|
                0 <= p < q < merged.len() ==> may_follow(
                    #[trigger] views(merged@)[p],
                    #[trigger] views(merged@)[q],
                ),
    {
        let mut all: Vec<TDXDayRecord> = Vec::new();
        let mut k: usize = 0;
        assert(views(all@) =~= gathered(file_views(files@).take(0)));
        while k < files.len()
            invariant
                k <= files.len(),
                views(all@) == gathered(file_views(files@).take(k as int)),
            decreases files.len() - k,
        {
            let ghost before = views(all@);
            proof {
                assert(file_views(files@).take(k + 1).drop_last() == file_views(files@).take(
                    k as int,
                ));
                assert(file_views(files@).take(k + 1).last() == views(files@[k as int]@));
            }
            let file = &files[k];
            let mut i: usize = 0;
            while i < file.len()
                invariant
                    i <= file.len(),
                    views(all@) == before + views(file@).take(i as int),
                decreases file.len() - i,
            {
                let ghost sofar = views(all@);
                all.push(file[i].clone());
                proof {
                    assert(views(all@) =~= sofar.push(file@[i as int]@));
                    assert(views(file@).take(i + 1) =~= views(file@).take(i as int).push(
                        file@[i as int]@,
                    ));
                    assert(views(all@) =~= before + views(file@).take(i + 1));
                }
                i += 1;
            }
            proof {
                assert(views(file@).take(file.len() as int) == views(file@));
            }
            k += 1;
        }
        proof {
            assert(file_views(files@).take(files.len() as int) == file_views(files@));
        }
        let ghost records = views(all@);
        let n = all.len();
        let mut symbols: Vec<String> = Vec::new();
        let mut markets: Vec<String> = Vec::new();
        let mut j: usize = 0;
        while j < n
            invariant
                n == all.len(),
                j <= n,
                symbols.len() == j,
                markets.len() == j,
                forall|i: int| 0 <= i < j ==> (#[trigger] symbols@[i])@ == all@[i]@.symbol,
                forall|i: int| 0 <= i < j ==> (#[trigger] markets@[i])@ == all@[i]@.market,
            decreases n - j,
        {
            symbols.push(all[j].symbol.clone());
            markets.push(all[j].market.clone());
            j += 1;
        }
        proof {
            assert(text_views(symbols@) =~= symbols_of(records));
            assert(text_views(markets@) =~= markets_of(records));
        }
        let symbol_ranks = text_ranks(&symbols);
        let minor = text_ranks(&markets);
        let mut major: Vec<i128> = Vec::new();
        let mut i: usize = 0;
        while i < n
            invariant
                n == all.len(),
                records == views(all@),
                i <= n,
                major.len() == i,
                symbol_ranks.len() == n,
                key_values(symbol_ranks@) == rank_keys(symbols_of(records)),
                forall|j: int|
                    0 <= j < symbol_ranks.len() ==> 0 <= #[trigger] symbol_ranks@[j] <= usize::MAX,
                forall|j: int| 0 <= j < i ==> #[trigger] major@[j] == day_and_symbol_keys(records)[j],
            decreases n - i,
        {
            let number = all[i].date.number();
            proof {
                assert(key_values(symbol_ranks@)[i as int] == symbol_ranks@[i as int]);
                assert(records[i as int] == all@[i as int]@);
            }
            major.push((number as i128) * 0x1_0000_0000_0000_0000 + symbol_ranks[i]);
            i += 1;
        }
        proof {
            assert(key_values(major@) =~= day_and_symbol_keys(records));
            lemma_merged(records);
        }
        let order = arrange_by_two(&major, &minor);
        pick(&all, &order)
    }

    /// The records of `records` that are of the day `target_date`.
    pub fn select_date(&self, records: &Vec<TDXDayRecord>, target_date: &TradingDate) -> (selected:
        Vec<TDXDayRecord>)
        ensures
            views(selected@) == on_day(views(records@), target_date@),
    {
        let n = records.len();
        let mut selected: Vec<TDXDayRecord> = Vec::new();
        let mut i: usize = 0;
        assert(views(selected@) =~= on_day(views(records@).take(0), target_date@));
        while i < n
            invariant
                n == records.len(),
                i <= n,
                views(selected@) == on_day(views(records@).take(i as int), target_date@),
            decreases n - i,
        {
            let ghost before = views(selected@);
            proof {
                assert(views(records@).take(i + 1).drop_last() == views(records@).take(i as int));
                assert(views(records@).take(i + 1).last() == records@[i as int]@);
            }
            if records[i].date.same_day(target_date) {
                selected.push(records[i].clone());
                assert(views(selected@) =~= before.push(records@[i as int]@));
            }
            i += 1;
        }
        proof {
            assert(views(records@).take(n as int) == views(records@));
        }
        selected
    }

    /// The pairs of instrument and market whose instrument is six digits,
    /// by instrument and then by market.
    pub fn list_stocks(&self, candidates: &Vec<(String, String)>) -> (stocks: Vec<(String, String)>)
        ensures
            pair_views(stocks@) == in_dictionary_order(listed(pair_views(candidates@))),
    {
        let n = candidates.len();
        let ghost given = pair_views(candidates@);
        let mut symbols: Vec<String> = Vec::new();
        let mut markets: Vec<String> = Vec::new();
        let mut i: usize = 0;
        assert(listed(given.take(0)) =~= Seq::<(Seq<char>, Seq<char>)>::empty());
        while i < n
            invariant
                n == candidates.len(),
                given == pair_views(candidates@),
                i <= n,
                symbols.len() == markets.len(),
                symbols.len() == listed(given.take(i as int)).len(),
                forall|j: int|
                    0 <= j < symbols.len() ==> ((#[trigger] symbols@[j])@, markets@[j]@) == listed(
                        given.take(i as int),
                    )[j],
            decreases n - i,
        {
            proof {
                assert(given.take(i + 1).drop_last() == given.take(i as int));
                assert(given.take(i + 1).last() == given[i as int]);
            }
            match ValidationUtils::validate_symbol(candidates[i].0.as_str()) {
                Ok(_) => {
                    symbols.push(candidates[i].0.clone());
                    markets.push(candidates[i].1.clone());
                },
                Err(_) => {},
            }
            i += 1;
        }
        proof {
            assert(given.take(n as int) == given);
        }
        let ghost kept = listed(given);
        proof {
            assert forall|j: int| 0 <= j < symbols.len() implies text_views(symbols@)[j] == firsts(
                kept,
            )[j] && text_views(markets@)[j] == seconds(kept)[j] by {
                assert((symbols@[j]@, markets@[j]@) == kept[j]);
            }
            assert(text_views(symbols@) =~= firsts(kept));
            assert(text_views(markets@) =~= seconds(kept));
        }
        let major = text_ranks(&symbols);
        let minor = text_ranks(&markets);
        let order = arrange_by_two(&major, &minor);
        let mut stocks: Vec<(String, String)> = Vec::new();
        let mut p: usize = 0;
        let m = symbols.len();
        while p < m
            invariant
                m == symbols.len(),
                m == markets.len(),
                m == order.len(),
                m == kept.len(),
                p <= m,
                stocks.len() == p,
                forall|q: int| 0 <= q < order.len() ==> (#[trigger] order@[q]) < m,
                forall|j: int| 0 <= j < m ==> ((#[trigger] symbols@[j])@, markets@[j]@) == kept[j],
                forall|q: int|
                    0 <= q < p ==> (#[trigger] pair_views(stocks@)[q]) == kept[order@[q] as int],
            decreases m - p,
        {
            let at = order[p];
            let ghost before = pair_views(stocks@);
            stocks.push((symbols[at].clone(), markets[at].clone()));
            proof {
                assert forall|q: int| 0 <= q < p + 1 implies (#[trigger] pair_views(stocks@)[q])
                    == kept[order@[q] as int] by {
                    if q < p {
                        assert(pair_views(stocks@)[q] == before[q]);
                    } else {
                        assert((symbols@[at as int]@, markets@[at as int]@) == kept[at as int]);
                    }
                }
            }
            p += 1;
        }
        proof {
            let ghost ord = positions(order@);
            assert forall|q: int| 0 <= q < m implies pair_views(stocks@)[q] == in_dictionary_order(
                kept,
            )[q] by {
                assert(ord[q] == order@[q]);
            }
            assert(pair_views(stocks@) =~= in_dictionary_order(kept));
        }
        stocks
    }

    /// Totals over the histories of the instruments whose files could be
    /// read, for `total_stocks` instruments in all and files of
    /// `data_size_bytes` bytes in all.
    pub fn summarize(&self, total_stocks: usize, histories: &Vec<Vec<TDXDayRecord>>, data_size_bytes: u64) -> (stats:
        TDXStatistics)
        requires
            record_total(file_views(histories@)) <= usize::MAX,
        ensures
            stats.total_stocks == total_stocks,
            stats.total_records == record_total(file_views(histories@)),
            stats.sh_count == 0,
            stats.sz_count == 0,
            day_view(stats.earliest_date) == earliest_start(file_views(histories@)),
            day_view(stats.latest_date) == latest_start(file_views(histories@)),
            stats.data_size_bytes == data_size_bytes,
    {
        let ghost files = file_views(histories@);
        let mut total_records: usize = 0;
        let mut earliest_date: Option<TradingDate> = None;
        let mut latest_date: Option<TradingDate> = None;
        let mut k: usize = 0;
        proof {
            lemma_record_total(files, 0);
        }
        while k < histories.len()
            invariant
                k <= histories.len(),
                files == file_views(histories@),
                record_total(files) <= usize::MAX,
                total_records == record_total(files.take(k as int)),
                day_view(earliest_date) == earliest_start(files.take(k as int)),
                day_view(latest_date) == latest_start(files.take(k as int)),
            decreases histories.len() - k,
        {
            proof {
                assert(files.take(k + 1).drop_last() == files.take(k as int));
                assert(files.take(k + 1).last() == views(histories@[k as int]@));
                lemma_record_total(files, k + 1);
            }
            let records = &histories[k];
            total_records = total_records + records.len();
            if records.len() > 0 {
                let first = records[0].date;
                proof {
                    assert(views(records@)[0] == records@[0]@);
                }
                let sooner = match earliest_date {
                    Some(current) => first.number() < current.number(),
                    None => true,
                };
                if sooner {
                    earliest_date = Some(first);
                }
                let later = match latest_date {
                    Some(current) => first.number() > current.number(),
                    None => true,
                };
                if later {
                    latest_date = Some(first);
                }
            }
            k += 1;
        }
        proof {
            assert(files.take(histories.len() as int) == files);
        }
        TDXStatistics {
            total_stocks,
            total_records,
            sh_count: 0,
            sz_count: 0,
            earliest_date,
            latest_date,
            data_size_bytes,
        }
    }
}

/// The records of the first `k` files are not more than the records of
/// all.
proof fn lemma_record_total(files: Seq<Seq<RecordView>>, k: int)
    requires
        0 <= k <= files.len(),
    ensures
        0 <= record_total(files.take(k)) <= record_total(files),
    decreases files.len() - k,
{
    lemma_record_total_positive(files.take(k));
    if k < files.len() {
        lemma_record_total(files, k + 1);
        assert(files.take(k + 1).drop_last() == files.take(k));
    } else {
        assert(files.take(k) == files);
    }
}

proof fn lemma_record_total_positive(files: Seq<Seq<RecordView>>)
    ensures
        0 <= record_total(files),
    decreases files.len(),
{
    if files.len() > 0 {
        lemma_record_total_positive(files.drop_last());
    }
}

} // verus!
