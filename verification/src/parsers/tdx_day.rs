//! The daily-bar record and the decoder of its on-disk layout.
//!
//! A file is a sequence of 32-byte records, each made of eight little-endian
//! 32-bit fields: date, open, high, low, close, amount, volume, reserved.

use crate::arrange::{arrange, is_stable_order, key_values, lemma_stable_order, positions, stable_order};
use crate::calendar::{is_calendar_date, DateView, TradingDate};
use crate::error::DataError;
use crate::parsers::amount::{amount_from_bits, amount_of_bits};
use crate::parsers::utils::{is_ascii_digit, is_symbol, same_letter};
use vstd::prelude::*;
use vstd::string::*;

verus! {

/// The size of one record on disk, in bytes.
pub const RECORD_SIZE: usize = 32;

/// The lowest price that is accepted, in hundredths: 0.01.
pub const MIN_PRICE: u32 = 1;

/// The highest price that is accepted, in hundredths: 10000.00.
pub const MAX_PRICE: u32 = 1_000_000;

/// One trading day of one instrument. Prices and the amount are in
/// hundredths of a currency unit, the volume in shares.
#[derive(Debug, PartialEq, Eq)]
pub struct TDXDayRecord {
    /// The trading day.
    pub date: TradingDate,
    /// The instrument identifier.
    pub symbol: String,
    /// The opening price.
    pub open: u32,
    /// The highest price.
    pub high: u32,
    /// The lowest price.
    pub low: u32,
    /// The closing price.
    pub close: u32,
    /// The number of shares traded.
    pub volume: u64,
    /// The value traded.
    pub amount: u64,
    /// The market code.
    pub market: String,
}

/// What a record holds.
pub struct RecordView {
    pub date: DateView,
    pub symbol: Seq<char>,
    pub open: int,
    pub high: int,
    pub low: int,
    pub close: int,
    pub volume: int,
    pub amount: int,
    pub market: Seq<char>,
}

impl View for TDXDayRecord {
    type V = RecordView;

    open spec fn view(&self) -> RecordView {
        RecordView {
            date: self.date@,
            symbol: self.symbol@,
            open: self.open as int,
            high: self.high as int,
            low: self.low as int,
            close: self.close as int,
            volume: self.volume as int,
            amount: self.amount as int,
            market: self.market@,
        }
    }
}

impl Clone for TDXDayRecord {
    fn clone(&self) -> (copy: Self)
        ensures
            copy@ == self@,
    {
        TDXDayRecord {
            date: self.date,
            symbol: self.symbol.clone(),
            open: self.open,
            high: self.high,
            low: self.low,
            close: self.close,
            volume: self.volume,
            amount: self.amount,
            market: self.market.clone(),
        }
    }
}

/// What each record of `records` holds.
pub open spec fn views(records: Seq<TDXDayRecord>) -> Seq<RecordView> {
    Seq::new(records.len(), |i: int| records[i]@)
}

/// The relations that the four prices of a day obey: the low is the least
/// and the high the greatest, and all lie between 0.01 and 10000.00.
pub open spec fn prices_valid(open: int, high: int, low: int, close: int) -> bool {
    &&& MIN_PRICE <= low
    &&& low <= open <= high
    &&& low <= close <= high
    &&& high <= MAX_PRICE
}

impl RecordView {
    /// Whether the prices obey the relations of a trading day.
    pub open spec fn is_consistent(self) -> bool {
        prices_valid(self.open, self.high, self.low, self.close)
    }
}

/// The dates of `records` as numbers `YYYYMMDD`.
pub open spec fn date_keys(records: Seq<RecordView>) -> Seq<int> {
    Seq::new(records.len(), |i: int| records[i].date.number())
}

/// The records of `records` at the positions `order`, in that order.
pub open spec fn rearranged(records: Seq<RecordView>, order: Seq<int>) -> Seq<RecordView> {
    Seq::new(order.len(), |p: int| records[order[p]])
}

/// `records` in ascending order of date, records of one date in the order
/// in which they stand in `records`.
pub open spec fn chronological(records: Seq<RecordView>) -> Seq<RecordView> {
    rearranged(records, stable_order(date_keys(records)))
}

/// Whether the dates of `records` never descend.
pub open spec fn dates_ascend(records: Seq<RecordView>) -> bool {
    forall|p: int, q: int|
        0 <= p <= q < records.len() ==> (#[trigger] records[p]).date.number() <= (
        #[trigger] records[q]).date.number()
}

/// The chronological order holds the same records, each as often as before,
/// and its dates never descend.
pub proof fn lemma_chronological(records: Seq<RecordView>)
    ensures
        chronological(records).len() == records.len(),
        dates_ascend(chronological(records)),
        forall|i: int| 0 <= i < records.len() ==> chronological(records).contains(#[trigger] records[i]),
        forall|p: int|
            0 <= p < records.len() ==> records.contains(#[trigger] chronological(records)[p]),
{
    let keys = date_keys(records);
    let order = stable_order(keys);
    let sorted = chronological(records);
    lemma_stable_order(keys);
    assert forall|p: int, q: int| 0 <= p <= q < sorted.len() implies (#[trigger] sorted[p]).date.number()
        <= (#[trigger] sorted[q]).date.number() by {
        if p < q {
            assert(crate::arrange::comes_before(keys, order[p], order[q]));
        }
    }
    assert forall|i: int| 0 <= i < records.len() implies sorted.contains(#[trigger] records[i]) by {
        assert(order.contains(i));
        let p = choose|p: int| 0 <= p < order.len() && order[p] == i;
        assert(sorted[p] == records[i]);
    }
    assert forall|p: int| 0 <= p < records.len() implies records.contains(#[trigger] sorted[p]) by {
        assert(0 <= order[p] < records.len());
        assert(records[order[p]] == sorted[p]);
    }
}

/// The positions of `records` in chronological order.
pub fn date_order(records: &Vec<TDXDayRecord>) -> (order: Vec<usize>)
    ensures
        positions(order@) == stable_order(date_keys(views(records@))),
        is_stable_order(date_keys(views(records@)), positions(order@)),
{
    let n = records.len();
    let mut keys: Vec<i128> = Vec::new();
    let mut i: usize = 0;
    while i < n
        invariant
            n == records.len(),
            i <= n,
            keys.len() == i,
            forall|j: int| 0 <= j < i ==> keys@[j] == (#[trigger] records@[j])@.date.number(),
        decreases n - i,
    {
        keys.push(records[i].date.number() as i128);
        i += 1;
    }
    assert(key_values(keys@) =~= date_keys(views(records@)));
    arrange(&keys)
}

/// The records of `records` at the positions `order`, in that order.
pub fn pick(records: &Vec<TDXDayRecord>, order: &Vec<usize>) -> (out: Vec<TDXDayRecord>)
    requires
        forall|p: int| 0 <= p < order.len() ==> #[trigger] order@[p] < records.len(),
    ensures
        views(out@) == rearranged(views(records@), positions(order@)),
{
    let mut out: Vec<TDXDayRecord> = Vec::new();
    let mut p: usize = 0;
    while p < order.len()
        invariant
            p <= order.len(),
            out.len() == p,
            forall|q: int| 0 <= q < order.len() ==> #[trigger] order@[q] < records.len(),
            forall|q: int| 0 <= q < p ==> (#[trigger] out@[q])@ == records@[order@[q] as int]@,
        decreases order.len() - p,
    {
        out.push(records[order[p]].clone());
        p += 1;
    }
    assert(views(out@) =~= rearranged(views(records@), positions(order@)));
    out
}

/// `records` in chronological order.
pub fn in_date_order(records: &Vec<TDXDayRecord>) -> (out: Vec<TDXDayRecord>)
    ensures
        views(out@) == chronological(views(records@)),
        out.len() == records.len(),
        dates_ascend(views(out@)),
{
    let order = date_order(records);
    proof {
        lemma_chronological(views(records@));
        assert forall|p: int| 0 <= p < order.len() implies #[trigger] order@[p] < records.len() by {
            assert(positions(order@)[p] == order@[p]);
        }
    }
    pick(records, &order)
}

/// The unsigned number that the four bytes of `bytes` from `at` on spell,
/// the least significant byte first.
pub open spec fn le_u32(bytes: Seq<u8>, at: int) -> int {
    bytes[at] as int + bytes[at + 1] as int * 0x100 + bytes[at + 2] as int * 0x1_0000 + bytes[at
        + 3] as int * 0x100_0000
}

/// One record as it stands on disk.
#[derive(Clone, Copy, Debug, PartialEq, Eq, Structural)]
pub struct BinaryDayRecord {
    /// The date as the decimal number `YYYYMMDD`.
    pub date: u32,
    /// The opening price, in hundredths.
    pub open: u32,
    /// The highest price, in hundredths.
    pub high: u32,
    /// The lowest price, in hundredths.
    pub low: u32,
    /// The closing price, in hundredths.
    pub close: u32,
    /// The amount traded, as the bits of a 32-bit float.
    pub amount: u32,
    /// The number of shares traded.
    pub volume: u32,
    /// Not used.
    pub reserved: u32,
}

/// The record number `k` of `bytes`, counted from zero.
pub open spec fn record_at(bytes: Seq<u8>, k: int) -> BinaryDayRecord {
    BinaryDayRecord {
        date: le_u32(bytes, 32 * k) as u32,
        open: le_u32(bytes, 32 * k + 4) as u32,
        high: le_u32(bytes, 32 * k + 8) as u32,
        low: le_u32(bytes, 32 * k + 12) as u32,
        close: le_u32(bytes, 32 * k + 16) as u32,
        amount: le_u32(bytes, 32 * k + 20) as u32,
        volume: le_u32(bytes, 32 * k + 24) as u32,
        reserved: le_u32(bytes, 32 * k + 28) as u32,
    }
}

/// The date that the number `number` spells as `YYYYMMDD`, if it has eight
/// digits and the calendar has that day.
pub open spec fn date_of_number(number: int) -> Option<DateView> {
    let year = number / 10000;
    let month = (number / 100) % 100;
    let day = number % 100;
    if 10_000_000 <= number <= 99_999_999 && is_calendar_date(year, month, day) {
        Some(DateView { year, month, day })
    } else {
        None
    }
}

/// What the record `binary` becomes under the labels `symbol` and `market`:
/// a record of the library, or the reason why it is rejected. The date is
/// judged before the prices.
pub open spec fn converted(binary: BinaryDayRecord, symbol: Seq<char>, market: Seq<char>) -> Result<
    RecordView,
    DataError,
> {
    match date_of_number(binary.date as int) {
        None => Err(DataError::InvalidDate),
        Some(date) => if prices_valid(
            binary.open as int,
            binary.high as int,
            binary.low as int,
            binary.close as int,
        ) {
            Ok(
                RecordView {
                    date,
                    symbol,
                    open: binary.open as int,
                    high: binary.high as int,
                    low: binary.low as int,
                    close: binary.close as int,
                    volume: binary.volume as int,
                    amount: amount_of_bits(binary.amount),
                    market,
                },
            )
        } else {
            Err(DataError::InvalidPrice)
        },
    }
}

/// The first `count` records of `bytes` in the order of the file, or the
/// reason why the first record that is rejected is rejected.
pub open spec fn decoded(bytes: Seq<u8>, count: int, symbol: Seq<char>, market: Seq<char>) -> Result<
    Seq<RecordView>,
    DataError,
>
    decreases count,
{
    if count <= 0 {
        Ok(Seq::empty())
    } else {
        match decoded(bytes, count - 1, symbol, market) {
            Err(e) => Err(e),
            Ok(records) => match converted(record_at(bytes, count - 1), symbol, market) {
                Err(e) => Err(e),
                Ok(record) => Ok(records.push(record)),
            },
        }
    }
}

/// What a whole buffer decodes to: its records in chronological order, or
/// the reason why it is rejected.
pub open spec fn parsed(bytes: Seq<u8>, symbol: Seq<char>, market: Seq<char>) -> Result<
    Seq<RecordView>,
    DataError,
> {
    if bytes.len() % 32 != 0 {
        Err(DataError::InvalidLength)
    } else {
        match decoded(bytes, bytes.len() as int / 32, symbol, market) {
            Err(e) => Err(e),
            Ok(records) => Ok(chronological(records)),
        }
    }
}

/// Whether the outcome `got` of a computation is the outcome `expected`.
pub open spec fn outcome_is(
    got: Result<Vec<TDXDayRecord>, DataError>,
    expected: Result<Seq<RecordView>, DataError>,
) -> bool {
    match got {
        Ok(records) => expected == Ok::<Seq<RecordView>, DataError>(views(records@)),
        Err(e) => expected == Err::<Seq<RecordView>, DataError>(e),
    }
}

/// Reads the little-endian number at `at`.
fn read_u32(buffer: &[u8], at: usize) -> (value: u32)
    requires
        at + 4 <= buffer.len(),
    ensures
        value == le_u32(buffer@, at as int),
{
    (buffer[at] as u32) + (buffer[at + 1] as u32) * 0x100 + (buffer[at + 2] as u32) * 0x1_0000 + (
    buffer[at + 3] as u32) * 0x100_0000
}

/// Reads the record number `k`.
fn read_record(buffer: &[u8], k: usize) -> (binary: BinaryDayRecord)
    requires
        32 * (k + 1) <= buffer.len(),
    ensures
        binary == record_at(buffer@, k as int),
{
    let at = 32 * k;
    BinaryDayRecord {
        date: read_u32(buffer, at),
        open: read_u32(buffer, at + 4),
        high: read_u32(buffer, at + 8),
        low: read_u32(buffer, at + 12),
        close: read_u32(buffer, at + 16),
        amount: read_u32(buffer, at + 20),
        volume: read_u32(buffer, at + 24),
        reserved: read_u32(buffer, at + 28),
    }
}

/// A reader of daily-bar files below one data directory.
#[derive(Debug)]
pub struct TDXDayParser {
    /// The root of the data directory.
    pub data_root: String,
}

impl TDXDayParser {
    /// A parser for the data below `data_root`.
    pub fn new(data_root: &str) -> (parser: Self)
        ensures
            parser.data_root@ == data_root@,
    {
        TDXDayParser { data_root: String::from_str(data_root) }
    }

    /// Accepts the four prices of a day exactly when they obey the
    /// relations of a trading day.
    pub fn validate_prices(&self, open: u32, high: u32, low: u32, close: u32) -> (r: Result<
        (),
        DataError,
    >)
        ensures
            r is Ok <==> prices_valid(open as int, high as int, low as int, close as int),
            r is Err ==> r == Err::<(), DataError>(DataError::InvalidPrice),
    {
        if open == 0 || high == 0 || low == 0 || close == 0 {
            return Err(DataError::InvalidPrice);
        }
        if high < low {
            return Err(DataError::InvalidPrice);
        }
        if open > high || open < low || close > high || close < low {
            return Err(DataError::InvalidPrice);
        }
        if open < MIN_PRICE || high > MAX_PRICE || low < MIN_PRICE || close > MAX_PRICE {
            return Err(DataError::InvalidPrice);
        }
        Ok(())
    }

    /// Turns one record of the file into a record of the library.
    pub fn convert_binary_record(&self, binary: &BinaryDayRecord, symbol: &str, market: &str) -> (r:
        Result<TDXDayRecord, DataError>)
        ensures
            match r {
                Ok(record) => converted(*binary, symbol@, market@) == Ok::<RecordView, DataError>(
                    record@,
                ),
                Err(e) => converted(*binary, symbol@, market@) == Err::<RecordView, DataError>(e),
            },
    {
        let number = binary.date;
        if number < 10_000_000 || number > 99_999_999 {
            return Err(DataError::InvalidDate);
        }
        let year = number / 10000;
        let month = (number / 100) % 100;
        let day = number % 100;
        let date = match TradingDate::from_ymd_opt(year as i32, month, day) {
            Some(date) => date,
            None => {
                return Err(DataError::InvalidDate);
            },
        };
        match self.validate_prices(binary.open, binary.high, binary.low, binary.close) {
            Err(e) => {
                return Err(e);
            },
            Ok(_) => {},
        }
        Ok(
            TDXDayRecord {
                date,
                symbol: String::from_str(symbol),
                open: binary.open,
                high: binary.high,
                low: binary.low,
                close: binary.close,
                volume: binary.volume as u64,
                amount: amount_from_bits(binary.amount),
                market: String::from_str(market),
            },
        )
    }

    /// Decodes a whole buffer. The buffer is rejected as a whole where its
    /// length is no multiple of the record size or one of its records is
    /// rejected; the records of an accepted buffer come in chronological
    /// order.
    pub fn parse_binary_data(&self, buffer: &[u8], symbol: &str, market: &str) -> (r: Result<
        Vec<TDXDayRecord>,
        DataError,
    >)
        ensures
            outcome_is(r, parsed(buffer@, symbol@, market@)),
            buffer@.len() % 32 != 0 ==> r == Err::<Vec<TDXDayRecord>, DataError>(
                DataError::InvalidLength,
            ),
            r matches Ok(records) ==> records.len() == buffer@.len() / 32 && dates_ascend(
                views(records@),
            ),
    {
        if buffer.len() % RECORD_SIZE != 0 {
            return Err(DataError::InvalidLength);
        }
        let count = buffer.len() / RECORD_SIZE;
        match self.decode_records(buffer, count, symbol, market) {
            Err(e) => Err(e),
            Ok(records) => Ok(in_date_order(&records)),
        }
    }

    /// Decodes the `count` records of a buffer in the order of the file.
    fn decode_records(&self, buffer: &[u8], count: usize, symbol: &str, market: &str) -> (r: Result<
        Vec<TDXDayRecord>,
        DataError,
    >)
        requires
            buffer@.len() == 32 * count,
        ensures
            outcome_is(r, decoded(buffer@, count as int, symbol@, market@)),
            r matches Ok(records) ==> records.len() == count,
    {
        let mut records: Vec<TDXDayRecord> = Vec::new();
        let mut k: usize = 0;
        assert(views(records@) =~= Seq::<RecordView>::empty());
        while k < count
            invariant
                buffer@.len() == 32 * count,
                k <= count,
                records.len() == k,
                decoded(buffer@, k as int, symbol@, market@) == Ok::<Seq<RecordView>, DataError>(
                    views(records@),
                ),
            decreases count - k,
        {
            let binary = read_record(buffer, k);
            let ghost before = views(records@);
            let converted_record = self.convert_binary_record(&binary, symbol, market);
            proof {
                lemma_decoded_step(buffer@, k as int, symbol@, market@);
            }
            match converted_record {
                Ok(record) => {
                    records.push(record);
                    proof {
                        assert(views(records@) =~= before.push(record@));
                    }
                },
                Err(e) => {
                    proof {
                        lemma_decoded_fails(buffer@, k as int + 1, count as int, symbol@, market@);
                    }
                    return Err(e);
                },
            }
            k += 1;
        }
        Ok(records)
    }
}

/// The run of `k + 1` records is the run of `k` records and one record more.
proof fn lemma_decoded_step(bytes: Seq<u8>, k: int, symbol: Seq<char>, market: Seq<char>)
    requires
        0 <= k,
    ensures
        decoded(bytes, k + 1, symbol, market) == match decoded(bytes, k, symbol, market) {
            Err(e) => Err::<Seq<RecordView>, DataError>(e),
            Ok(records) => match converted(record_at(bytes, k), symbol, market) {
                Err(e) => Err(e),
                Ok(record) => Ok(records.push(record)),
            },
        },
{
}

/// A failure among the first `k` records is the failure of any longer run.
proof fn lemma_decoded_fails(bytes: Seq<u8>, k: int, count: int, symbol: Seq<char>, market: Seq<char>)
    requires
        0 <= k <= count,
        decoded(bytes, k, symbol, market) is Err,
    ensures
        decoded(bytes, count, symbol, market) == decoded(bytes, k, symbol, market),
    decreases count - k,
{
    if k < count {
        lemma_decoded_fails(bytes, k, count - 1, symbol, market);
    }
}

/// A run that is accepted yields one record for each record of the file.
proof fn lemma_decoded_len(bytes: Seq<u8>, count: int, symbol: Seq<char>, market: Seq<char>)
    requires
        0 <= count,
    ensures
        decoded(bytes, count, symbol, market) matches Ok(records) ==> records.len() == count,
    decreases count,
{
    if count > 0 {
        lemma_decoded_len(bytes, count - 1, symbol, market);
    }
}

/// Whether `c` parts the names of a path.
pub open spec fn is_separator(c: char) -> bool {
    c == '/' || c == '\\'
}

/// Where the last name of `path` starts: behind its last separator.
pub open spec fn name_start(path: Seq<char>) -> int
    decreases path.len(),
{
    if path.len() == 0 {
        0
    } else if is_separator(path.last()) {
        path.len() as int
    } else {
        name_start(path.drop_last())
    }
}

/// Where the last dot of `name` stands, if it has one.
pub open spec fn last_dot(name: Seq<char>) -> Option<int>
    decreases name.len(),
{
    if name.len() == 0 {
        None
    } else if name.last() == '.' {
        Some(name.len() - 1)
    } else {
        last_dot(name.drop_last())
    }
}

/// The last name of `path` without its extension: what stands before its
/// last dot, or the whole name where it has no dot but at its start.
pub open spec fn file_stem(path: Seq<char>) -> Seq<char> {
    let name = path.skip(name_start(path));
    match last_dot(name) {
        Some(k) if k > 0 => name.take(k),
        _ => name,
    }
}

/// Whether the four characters of `path` from `i` on are the code with the
/// upper-case letters `first` and `second`, in either case, between two
/// separators of the same kind.
pub open spec fn segment_at(path: Seq<char>, i: int, first: char, second: char) -> bool {
    &&& 0 <= i
    &&& i + 4 <= path.len()
    &&& (path[i] == '/' && path[i + 3] == '/') || (path[i] == '\\' && path[i + 3] == '\\')
    &&& same_letter(path[i + 1], first)
    &&& same_letter(path[i + 2], second)
}

/// Whether a directory of `path` is named by the code with the upper-case
/// letters `first` and `second`.
pub open spec fn has_segment(path: Seq<char>, first: char, second: char) -> bool {
    exists|i: int| segment_at(path, i, first, second)
}

/// The instrument and the market that the path of a file names: the
/// instrument by the stem of the file name, which is to be six digits, the
/// market by a directory `sh` or `sz`, of which `sh` counts where there
/// are both. The instrument is judged first.
pub open spec fn named_by(path: Seq<char>) -> Result<(Seq<char>, Seq<char>), DataError> {
    if !is_symbol(file_stem(path)) {
        Err(DataError::InvalidSymbol)
    } else if has_segment(path, 'S', 'H') {
        Ok((file_stem(path), "SH"@))
    } else if has_segment(path, 'S', 'Z') {
        Ok((file_stem(path), "SZ"@))
    } else {
        Err(DataError::UnknownMarket)
    }
}

/// Whether `c` is the upper-case letter `upper` or its lower-case form.
fn is_letter(c: char, upper: char) -> (same: bool)
    requires
        'A' <= upper <= 'Z',
    ensures
        same == same_letter(c, upper),
{
    c == upper || (c as u32) == (upper as u32) + 32
}

/// Whether a directory of `path` is named by the code with the upper-case
/// letters `first` and `second`.
fn find_segment(path: &Vec<char>, first: char, second: char) -> (found: bool)
    requires
        'A' <= first <= 'Z',
        'A' <= second <= 'Z',
    ensures
        found == has_segment(path@, first, second),
{
    let n = path.len();
    if n < 4 {
        assert(!has_segment(path@, first, second)) by {
            if has_segment(path@, first, second) {
                let i = choose|i: int| segment_at(path@, i, first, second);
            }
        }
        return false;
    }
    let mut i: usize = 0;
    while i <= n - 4
        invariant
            n == path.len(),
            n >= 4,
            i <= n - 3,
            'A' <= first <= 'Z',
            'A' <= second <= 'Z',
            forall|j: int| 0 <= j < i ==> !segment_at(path@, j, first, second),
        decreases n - i,
    {
        let fenced = (path[i] == '/' && path[i + 3] == '/') || (path[i] == '\\' && path[i + 3]
            == '\\');
        if fenced && is_letter(path[i + 1], first) && is_letter(path[i + 2], second) {
            assert(segment_at(path@, i as int, first, second));
            return true;
        }
        i += 1;
    }
    assert(!has_segment(path@, first, second)) by {
        if has_segment(path@, first, second) {
            let j = choose|j: int| segment_at(path@, j, first, second);
            assert(j < i);
        }
    }
    false
}

/// The characters of `text`.
fn chars_of(text: &str) -> (chars: Vec<char>)
    ensures
        chars@ == text@,
{
    let n = text.unicode_len();
    let mut chars: Vec<char> = Vec::new();
    let mut i: usize = 0;
    while i < n
        invariant
            n == text@.len(),
            i <= n,
            chars.len() == i,
            forall|j: int| 0 <= j < i ==> #[trigger] chars@[j] == text@[j],
        decreases n - i,
    {
        chars.push(text.get_char(i));
        i += 1;
    }
    assert(chars@ =~= text@);
    chars
}

/// Where the last name of `path` starts.
fn find_name_start(path: &Vec<char>) -> (start: usize)
    ensures
        start == name_start(path@),
        start <= path.len(),
{
    let n = path.len();
    let mut start: usize = n;
    assert(path@.take(n as int) =~= path@);
    while start > 0 && !(path[start - 1] == '/' || path[start - 1] == '\\')
        invariant
            start <= n,
            n == path.len(),
            name_start(path@) == name_start(path@.take(start as int)),
        decreases start,
    {
        proof {
            assert(path@.take(start as int).last() == path@[start - 1]);
            assert(path@.take(start as int).drop_last() =~= path@.take(start - 1));
        }
        start -= 1;
    }
    proof {
        if start > 0 {
            assert(path@.take(start as int).last() == path@[start - 1]);
        }
    }
    start
}

/// Where the stem of the last name of `path` starts and ends.
fn find_stem(path: &Vec<char>) -> (bounds: (usize, usize))
    ensures
        bounds.0 <= bounds.1 <= path.len(),
        file_stem(path@) == path@.subrange(bounds.0 as int, bounds.1 as int),
{
    let n = path.len();
    let start = find_name_start(path);
    let ghost name = path@.skip(start as int);
    let mut end: usize = n;
    assert(name.take(n - start) =~= name);
    while end > start && path[end - 1] != '.'
        invariant
            start <= end <= n,
            n == path.len(),
            name == path@.skip(start as int),
            last_dot(name) == last_dot(name.take(end - start)),
        decreases end,
    {
        proof {
            assert(name.take(end - start).last() == path@[end - 1]);
            assert(name.take(end - start).drop_last() =~= name.take(end - start - 1));
        }
        end -= 1;
    }
    proof {
        if end > start {
            assert(name.take(end - start).last() == path@[end - 1]);
            assert(last_dot(name) == Some(end - start - 1));
        } else {
            assert(last_dot(name) is None);
        }
    }
    let stem_end: usize = if end - start > 1 {
        end - 1
    } else {
        n
    };
    proof {
        assert(file_stem(path@) =~= path@.subrange(start as int, stem_end as int));
    }
    (start, stem_end)
}

/// Whether the characters `start..end` of `path` are six digits.
fn is_symbol_between(path: &Vec<char>, start: usize, end: usize) -> (valid: bool)
    requires
        start <= end <= path.len(),
    ensures
        valid == is_symbol(path@.subrange(start as int, end as int)),
{
    let ghost stem = path@.subrange(start as int, end as int);
    if end - start != 6 {
        return false;
    }
    let mut k: usize = start;
    while k < end
        invariant
            start <= k <= end <= path.len(),
            end - start == 6,
            stem == path@.subrange(start as int, end as int),
            forall|j: int| 0 <= j < k - start ==> is_ascii_digit(#[trigger] stem[j]),
        decreases end - k,
    {
        let c = path[k];
        if !('0' <= c && c <= '9') {
            proof {
                assert(stem[k - start] == c);
            }
            return false;
        }
        proof {
            assert(stem[k - start] == c);
        }
        k += 1;
    }
    true
}

impl TDXDayParser {
    /// Reads the instrument and the market off the path of a file.
    pub fn extract_symbol_market(&self, file_path: &str) -> (r: Result<(String, String), DataError>)
        ensures
            match r {
                Ok((symbol, market)) => named_by(file_path@) == Ok::<
                    (Seq<char>, Seq<char>),
                    DataError,
                >((symbol@, market@)),
                Err(e) => named_by(file_path@) == Err::<(Seq<char>, Seq<char>), DataError>(e),
            },
    {
        let path = chars_of(file_path);
        let (start, end) = find_stem(&path);
        if !is_symbol_between(&path, start, end) {
            return Err(DataError::InvalidSymbol);
        }
        let market = if find_segment(&path, 'S', 'H') {
            "SH"
        } else if find_segment(&path, 'S', 'Z') {
            "SZ"
        } else {
            return Err(DataError::UnknownMarket);
        };
        let symbol = file_path.substring_char(start, end);
        Ok((String::from_str(symbol), String::from_str(market)))
    }

    /// Decodes the content `buffer` of the file at `file_path`: its records
    /// in chronological order, under the instrument and the market that
    /// the path names.
    pub fn parse_file_content(&self, file_path: &str, buffer: &[u8]) -> (r: Result<
        Vec<TDXDayRecord>,
        DataError,
    >)
        ensures
            match named_by(file_path@) {
                Ok((symbol, market)) => outcome_is(r, parsed(buffer@, symbol, market)),
                Err(e) => r == Err::<Vec<TDXDayRecord>, DataError>(e),
            },
    {
        match self.extract_symbol_market(file_path) {
            Err(e) => Err(e),
            Ok((symbol, market)) => self.parse_binary_data(
                buffer,
                symbol.as_str(),
                market.as_str(),
            ),
        }
    }
}

/// The four bytes that spell `value`, the least significant byte first.
pub open spec fn le_bytes(value: u32) -> Seq<u8> {
    seq![
        (value % 0x100) as u8,
        ((value / 0x100) % 0x100) as u8,
        ((value / 0x1_0000) % 0x100) as u8,
        ((value / 0x100_0000) % 0x100) as u8,
    ]
}

/// A number that is written as four bytes is read back as it was.
pub proof fn lemma_bytes_round_trip(value: u32)
    ensures
        le_u32(le_bytes(value), 0) == value,
{
}

/// The record of the file that `record` is written as, with the amount as
/// the bits `amount`: the date as the number `YYYYMMDD`, the prices in
/// hundredths.
pub open spec fn written(record: RecordView, amount: u32) -> BinaryDayRecord {
    BinaryDayRecord {
        date: record.date.number() as u32,
        open: record.open as u32,
        high: record.high as u32,
        low: record.low as u32,
        close: record.close as u32,
        amount,
        volume: record.volume as u32,
        reserved: 0,
    }
}

/// The number `YYYYMMDD` of a day with a year of four digits has eight
/// digits, of which the first four are the year, the next two the month
/// and the last two the day.
pub proof fn lemma_number_parts(year: int, month: int, day: int)
    requires
        1000 <= year <= 9999,
        1 <= month <= 12,
        1 <= day <= 31,
    ensures
        10_000_000 <= year * 10000 + month * 100 + day <= 99_999_999,
        (year * 10000 + month * 100 + day) / 10000 == year,
        ((year * 10000 + month * 100 + day) / 100) % 100 == month,
        (year * 10000 + month * 100 + day) % 100 == day,
{
}

/// A record whose prices are in order, whose year has four digits and
/// whose volume takes 32 bits is decoded, once it is written, as it was:
/// each price to the hundredth, the day and the volume as they were, the
/// amount as its bits spell it.
pub proof fn lemma_record_round_trip(record: RecordView, amount: u32)
    requires
        record.is_consistent(),
        record.date.exists_in_calendar(),
        1000 <= record.date.year <= 9999,
        0 <= record.volume <= u32::MAX,
    ensures
        converted(written(record, amount), record.symbol, record.market) == Ok::<
            RecordView,
            DataError,
        >(RecordView { amount: amount_of_bits(amount), ..record }),
{
    let date = record.date;
    lemma_number_parts(date.year, date.month, date.day);
    let binary = written(record, amount);
    assert(binary.date as int == date.number());
    assert(date_of_number(binary.date as int) == Some(date));
    assert(prices_valid(
        binary.open as int,
        binary.high as int,
        binary.low as int,
        binary.close as int,
    ));
}

} // verus!
