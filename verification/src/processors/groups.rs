//! Records by instrument.

use crate::parsers::tdx_day::{RecordView, TDXDayRecord, views};
use crate::arrange::key_values;
use crate::text::{
    lemma_lex_irreflexive, lemma_lex_transitive, lemma_texts_seen, lex_less, text_before, texts_seen,
};
use vstd::prelude::*;

verus! {

/// The symbols of `records`, each once, in the order in which they first
/// appear.
pub open spec fn symbols_seen(records: Seq<RecordView>) -> Seq<Seq<char>>
    decreases records.len(),
{
    if records.len() == 0 {
        Seq::empty()
    } else {
        let before = symbols_seen(records.drop_last());
        if before.contains(records.last().symbol) {
            before
        } else {
            before.push(records.last().symbol)
        }
    }
}

/// The records of `records` that carry the symbol `symbol`, in their order.
pub open spec fn of_symbol(records: Seq<RecordView>, symbol: Seq<char>) -> Seq<RecordView>
    decreases records.len(),
{
    if records.len() == 0 {
        Seq::empty()
    } else {
        let before = of_symbol(records.drop_last(), symbol);
        if records.last().symbol == symbol {
            before.push(records.last())
        } else {
            before
        }
    }
}

/// What each text of `texts` holds.
pub open spec fn text_views(texts: Seq<String>) -> Seq<Seq<char>> {
    Seq::new(texts.len(), |i: int| texts[i]@)
}

/// Every symbol that was seen is the symbol of a record, and no symbol was
/// seen twice.
pub proof fn lemma_symbols_seen(records: Seq<RecordView>)
    ensures
        symbols_seen(records).no_duplicates(),
        forall|i: int|
            0 <= i < records.len() ==> symbols_seen(records).contains((#[trigger] records[i]).symbol),
        forall|k: int|
            0 <= k < symbols_seen(records).len() ==> of_symbol(
                records,
                #[trigger] symbols_seen(records)[k],
            ).len() > 0,
    decreases records.len(),
{
    if records.len() > 0 {
        let shorter = records.drop_last();
        let before = symbols_seen(shorter);
        let seen = symbols_seen(records);
        lemma_symbols_seen(shorter);
        assert forall|i: int| 0 <= i < records.len() implies seen.contains(
            (#[trigger] records[i]).symbol,
        ) by {
            if i < shorter.len() {
                assert(shorter[i] == records[i]);
                assert(before.contains(shorter[i].symbol));
                let k = choose|k: int| 0 <= k < before.len() && before[k] == shorter[i].symbol;
                assert(seen[k] == records[i].symbol);
            } else {
                if before.contains(records.last().symbol) {
                } else {
                    assert(seen[before.len() as int] == records.last().symbol);
                }
            }
        }
        assert forall|k: int| 0 <= k < seen.len() implies of_symbol(records, #[trigger] seen[k]).len()
            > 0 by {
            if k < before.len() {
                assert(seen[k] == before[k]);
                assert(of_symbol(shorter, before[k]).len() > 0);
            }
        }
    }
}

/// Whether `symbols` holds the text `symbol`.
pub fn holds_symbol(symbols: &Vec<String>, symbol: &String) -> (found: bool)
    ensures
        found == text_views(symbols@).contains(symbol@),
{
    let mut k: usize = 0;
    while k < symbols.len()
        invariant
            k <= symbols.len(),
            forall|j: int| 0 <= j < k ==> text_views(symbols@)[j] != symbol@,
        decreases symbols.len() - k,
    {
        if symbols[k] == *symbol {
            assert(text_views(symbols@)[k as int] == symbol@);
            return true;
        }
        k += 1;
    }
    false
}

/// The symbols of `records`, each once, in the order in which they first
/// appear.
pub fn distinct_symbols(records: &Vec<TDXDayRecord>) -> (symbols: Vec<String>)
    ensures
        text_views(symbols@) == symbols_seen(views(records@)),
{
    let n = records.len();
    let mut symbols: Vec<String> = Vec::new();
    let mut i: usize = 0;
    assert(text_views(symbols@) =~= symbols_seen(views(records@).take(0)));
    while i < n
        invariant
            n == records.len(),
            i <= n,
            text_views(symbols@) == symbols_seen(views(records@).take(i as int)),
        decreases n - i,
    {
        let ghost before = text_views(symbols@);
        proof {
            assert(views(records@).take(i + 1).drop_last() == views(records@).take(i as int));
            assert(views(records@).take(i + 1).last() == records@[i as int]@);
        }
        if !holds_symbol(&symbols, &records[i].symbol) {
            symbols.push(records[i].symbol.clone());
            assert(text_views(symbols@) =~= before.push(records@[i as int]@.symbol));
        }
        i += 1;
    }
    proof {
        assert(views(records@).take(n as int) == views(records@));
    }
    symbols
}

/// The records of `records` that carry the symbol `symbol`, in their order.
pub fn records_of(records: &Vec<TDXDayRecord>, symbol: &String) -> (group: Vec<TDXDayRecord>)
    ensures
        views(group@) == of_symbol(views(records@), symbol@),
{
    let n = records.len();
    let mut group: Vec<TDXDayRecord> = Vec::new();
    let mut i: usize = 0;
    assert(views(group@) =~= of_symbol(views(records@).take(0), symbol@));
    while i < n
        invariant
            n == records.len(),
            i <= n,
            views(group@) == of_symbol(views(records@).take(i as int), symbol@),
        decreases n - i,
    {
        let ghost before = views(group@);
        proof {
            assert(views(records@).take(i + 1).drop_last() == views(records@).take(i as int));
            assert(views(records@).take(i + 1).last() == records@[i as int]@);
        }
        if records[i].symbol == *symbol {
            group.push(records[i].clone());
            assert(views(group@) =~= before.push(records@[i as int]@));
        }
        i += 1;
    }
    proof {
        assert(views(records@).take(n as int) == views(records@));
    }
    group
}

/// The number of texts of `texts` that stand before `text` in the order of
/// the dictionary.
pub open spec fn texts_before(texts: Seq<Seq<char>>, text: Seq<char>) -> int
    decreases texts.len(),
{
    if texts.len() == 0 {
        0
    } else {
        texts_before(texts.drop_last(), text) + if lex_less(texts.last(), text) {
            1int
        } else {
            0int
        }
    }
}

/// No more texts stand before a text than there are texts.
pub proof fn lemma_texts_before_bound(texts: Seq<Seq<char>>, text: Seq<char>)
    ensures
        0 <= texts_before(texts, text) <= texts.len(),
    decreases texts.len(),
{
    if texts.len() > 0 {
        lemma_texts_before_bound(texts.drop_last(), text);
    }
}

/// Of two texts, fewer texts stand before the one that stands before the
/// other, where it is among the texts that are counted.
pub proof fn lemma_texts_before_grows(texts: Seq<Seq<char>>, a: Seq<char>, b: Seq<char>)
    requires
        lex_less(a, b),
    ensures
        texts_before(texts, a) <= texts_before(texts, b),
        texts.contains(a) ==> texts_before(texts, a) < texts_before(texts, b),
    decreases texts.len(),
{
    if texts.len() > 0 {
        let shorter = texts.drop_last();
        lemma_texts_before_grows(shorter, a, b);
        if lex_less(texts.last(), a) {
            lemma_lex_transitive(texts.last(), a, b);
        }
        if texts.contains(a) {
            let k = choose|k: int| 0 <= k < texts.len() && texts[k] == a;
            if k < shorter.len() {
                assert(shorter[k] == a);
            } else {
                lemma_lex_irreflexive(a);
            }
        }
    }
}

/// Counts the texts of `texts` that stand before `text`.
pub fn rank_among(texts: &Vec<String>, text: &str) -> (rank: usize)
    ensures
        rank == texts_before(text_views(texts@), text@),
        rank <= texts.len(),
{
    let n = texts.len();
    let mut rank: usize = 0;
    let mut k: usize = 0;
    assert(text_views(texts@).take(0) =~= Seq::<Seq<char>>::empty());
    while k < n
        invariant
            n == texts.len(),
            k <= n,
            rank <= k,
            rank == texts_before(text_views(texts@).take(k as int), text@),
        decreases n - k,
    {
        proof {
            assert(text_views(texts@).take(k + 1).drop_last() == text_views(texts@).take(k as int));
            assert(text_views(texts@).take(k + 1).last() == texts@[k as int]@);
        }
        if text_before(texts[k].as_str(), text) {
            rank += 1;
        }
        k += 1;
    }
    proof {
        assert(text_views(texts@).take(n as int) == text_views(texts@));
    }
    rank
}

/// For each text, the number of different texts that stand before it in
/// the order of the dictionary.
pub open spec fn rank_keys(texts: Seq<Seq<char>>) -> Seq<int> {
    Seq::new(texts.len(), |i: int| texts_before(texts_seen(texts), texts[i]))
}

/// Of two texts of `texts`, the one that stands before the other in the
/// order of the dictionary has the smaller rank.
pub proof fn lemma_rank_keys(texts: Seq<Seq<char>>, i: int, j: int)
    requires
        0 <= i < texts.len(),
        0 <= j < texts.len(),
    ensures
        0 <= rank_keys(texts)[i] <= texts.len(),
        lex_less(texts[i], texts[j]) ==> rank_keys(texts)[i] < rank_keys(texts)[j],
        texts[i] == texts[j] ==> rank_keys(texts)[i] == rank_keys(texts)[j],
{
    lemma_texts_seen(texts);
    lemma_texts_before_bound(texts_seen(texts), texts[i]);
    if lex_less(texts[i], texts[j]) {
        lemma_texts_before_grows(texts_seen(texts), texts[i], texts[j]);
    }
}

/// Where `text` stands in `texts`, if it does.
fn place_of(texts: &Vec<String>, text: &String) -> (place: Option<usize>)
    ensures
        match place {
            Some(k) => k < texts.len() && texts@[k as int]@ == text@,
            None => !text_views(texts@).contains(text@),
        },
{
    let mut k: usize = 0;
    while k < texts.len()
        invariant
            k <= texts.len(),
            forall|j: int| 0 <= j < k ==> text_views(texts@)[j] != text@,
        decreases texts.len() - k,
    {
        if texts[k] == *text {
            return Some(k);
        }
        k += 1;
    }
    None
}

/// The texts of `texts`, each once, in the order in which they first
/// appear.
pub fn distinct_texts(texts: &Vec<String>) -> (seen: Vec<String>)
    ensures
        text_views(seen@) == texts_seen(text_views(texts@)),
{
    let n = texts.len();
    let ghost all = text_views(texts@);
    let mut seen: Vec<String> = Vec::new();
    let mut i: usize = 0;
    assert(text_views(seen@) =~= texts_seen(all.take(0)));
    while i < n
        invariant
            n == texts.len(),
            all == text_views(texts@),
            i <= n,
            text_views(seen@) == texts_seen(all.take(i as int)),
        decreases n - i,
    {
        let ghost before = text_views(seen@);
        proof {
            assert(all.take(i + 1).drop_last() == all.take(i as int));
            assert(all.take(i + 1).last() == texts@[i as int]@);
        }
        if !holds_symbol(&seen, &texts[i]) {
            seen.push(texts[i].clone());
            assert(text_views(seen@) =~= before.push(texts@[i as int]@));
        }
        i += 1;
    }
    proof {
        assert(all.take(n as int) == all);
    }
    seen
}

/// For each text, the number of different texts that stand before it in
/// the order of the dictionary.
pub fn text_ranks(texts: &Vec<String>) -> (ranks: Vec<i128>)
    ensures
        key_values(ranks@) == rank_keys(text_views(texts@)),
        ranks.len() == texts.len(),
        forall|i: int| 0 <= i < ranks.len() ==> 0 <= #[trigger] ranks@[i] <= usize::MAX,
{
    let n = texts.len();
    let ghost all = text_views(texts@);
    let seen = distinct_texts(texts);
    let ghost names = text_views(seen@);
    let mut seen_ranks: Vec<usize> = Vec::new();
    let mut k: usize = 0;
    while k < seen.len()
        invariant
            k <= seen.len(),
            names == text_views(seen@),
            seen_ranks.len() == k,
            forall|j: int| 0 <= j < k ==> #[trigger] seen_ranks@[j] == texts_before(names, names[j]),
        decreases seen.len() - k,
    {
        seen_ranks.push(rank_among(&seen, seen[k].as_str()));
        k += 1;
    }
    let mut ranks: Vec<i128> = Vec::new();
    let mut i: usize = 0;
    proof {
        lemma_texts_seen(all);
    }
    while i < n
        invariant
            n == texts.len(),
            all == text_views(texts@),
            names == text_views(seen@),
            names == texts_seen(all),
            seen_ranks.len() == seen.len(),
            forall|j: int|
                0 <= j < seen.len() ==> #[trigger] seen_ranks@[j] == texts_before(names, names[j]),
            forall|j: int| 0 <= j < n ==> names.contains(#[trigger] all[j]),
            i <= n,
            ranks.len() == i,
            forall|j: int|
                0 <= j < i ==> #[trigger] ranks@[j] == texts_before(names, all[j]) && 0 <= ranks@[j]
                    <= usize::MAX,
        decreases n - i,
    {
        let rank: usize = match place_of(&seen, &texts[i]) {
            Some(k) => {
                proof {
                    assert(names[k as int] == all[i as int]);
                }
                seen_ranks[k]
            },
            None => {
                proof {
                    assert(names.contains(all[i as int]));
                }
                0
            },
        };
        ranks.push(rank as i128);
        i += 1;
    }
    assert(key_values(ranks@) =~= rank_keys(all));
    ranks
}

} // verus!
