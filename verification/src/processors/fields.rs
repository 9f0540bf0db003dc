//! The six numeric fields of a record, by name.

use crate::error::DataError;
use crate::parsers::tdx_day::{RecordView, TDXDayRecord, views};
use crate::text::same_text;
use vstd::prelude::*;

verus! {

/// A numeric field of a record.
#[derive(Clone, Copy, Debug, PartialEq, Eq, Structural)]
pub enum Field {
    Open,
    High,
    Low,
    Close,
    Volume,
    Amount,
}

/// The field that goes by the name `name`.
pub open spec fn field_named(name: Seq<char>) -> Option<Field> {
    if name == "open"@ {
        Some(Field::Open)
    } else if name == "high"@ {
        Some(Field::High)
    } else if name == "low"@ {
        Some(Field::Low)
    } else if name == "close"@ {
        Some(Field::Close)
    } else if name == "volume"@ {
        Some(Field::Volume)
    } else if name == "amount"@ {
        Some(Field::Amount)
    } else {
        None
    }
}

impl Field {
    /// Whether the field is one of the four prices.
    pub open spec fn is_price(self) -> bool {
        self == Field::Open || self == Field::High || self == Field::Low || self == Field::Close
    }
}

impl RecordView {
    /// The value of the field `field`, in the unit of that field.
    pub open spec fn value_of(self, field: Field) -> int {
        match field {
            Field::Open => self.open,
            Field::High => self.high,
            Field::Low => self.low,
            Field::Close => self.close,
            Field::Volume => self.volume,
            Field::Amount => self.amount,
        }
    }
}

/// The values of the field `field` in `records`, one for each record.
pub open spec fn column(records: Seq<RecordView>, field: Field) -> Seq<u64> {
    Seq::new(records.len(), |i: int| records[i].value_of(field) as u64)
}

/// Finds the field that goes by the name `name`.
pub fn field_by_name(name: &str) -> (field: Option<Field>)
    ensures
        field == field_named(name@),
{
    if same_text(name, "open") {
        Some(Field::Open)
    } else if same_text(name, "high") {
        Some(Field::High)
    } else if same_text(name, "low") {
        Some(Field::Low)
    } else if same_text(name, "close") {
        Some(Field::Close)
    } else if same_text(name, "volume") {
        Some(Field::Volume)
    } else if same_text(name, "amount") {
        Some(Field::Amount)
    } else {
        None
    }
}

/// Finds the field that goes by the name `name`, or reports that there is
/// none.
pub fn known_field(name: &str) -> (field: Result<Field, DataError>)
    ensures
        match field {
            Ok(f) => field_named(name@) == Some(f),
            Err(e) => e == DataError::UnknownField && field_named(name@) is None,
        },
{
    match field_by_name(name) {
        Some(f) => Ok(f),
        None => Err(DataError::UnknownField),
    }
}

/// Reads the field `field` of `record`.
pub fn field_value(record: &TDXDayRecord, field: Field) -> (value: u64)
    ensures
        value == record@.value_of(field),
{
    match field {
        Field::Open => record.open as u64,
        Field::High => record.high as u64,
        Field::Low => record.low as u64,
        Field::Close => record.close as u64,
        Field::Volume => record.volume,
        Field::Amount => record.amount,
    }
}

/// Reads the field `field` of each record.
pub fn column_of(records: &Vec<TDXDayRecord>, field: Field) -> (values: Vec<u64>)
    ensures
        values@ == column(views(records@), field),
{
    let n = records.len();
    let mut values: Vec<u64> = Vec::new();
    let mut i: usize = 0;
    while i < n
        invariant
            n == records.len(),
            i <= n,
            values.len() == i,
            forall|j: int| 0 <= j < i ==> #[trigger] values@[j] == records@[j]@.value_of(field),
        decreases n - i,
    {
        values.push(field_value(&records[i], field));
        i += 1;
    }
    assert(values@ =~= column(views(records@), field));
    values
}

} // verus!
