//! The record type for one row of the dataset. Integer estimates are kept
//! as plain unsigned integers; reproduction-number estimates are kept as
//! their normalized decimal field texts, validated against the
//! floating-point grammar at parse time.

use vstd::prelude::*;

verus! {

/// One parsed row of the dataset, in the file's original order. The
/// `r_value` family holds the period-normalized field texts.
pub struct DataRecord {
    pub date: String,
    pub new_cases: u32,
    pub new_cases_lower: u32,
    pub new_cases_upper: u32,
    pub new_cases_avg: u32,
    pub new_cases_avg_lower: u32,
    pub new_cases_avg_upper: u32,
    pub r_value: String,
    pub r_value_lower: String,
    pub r_value_upper: String,
    pub r_value_avg: String,
    pub r_value_avg_lower: String,
    pub r_value_avg_upper: String,
}

/// The mathematical model of a record: each text field as a character
/// sequence, each count as its number.
pub ghost struct RecordModel {
    pub date: Seq<char>,
    pub new_cases: u32,
    pub new_cases_lower: u32,
    pub new_cases_upper: u32,
    pub new_cases_avg: u32,
    pub new_cases_avg_lower: u32,
    pub new_cases_avg_upper: u32,
    pub r_value: Seq<char>,
    pub r_value_lower: Seq<char>,
    pub r_value_upper: Seq<char>,
    pub r_value_avg: Seq<char>,
    pub r_value_avg_lower: Seq<char>,
    pub r_value_avg_upper: Seq<char>,
}

impl View for DataRecord {
    type V = RecordModel;

    open spec fn view(&self) -> RecordModel {
        RecordModel {
            date: self.date@,
            new_cases: self.new_cases,
            new_cases_lower: self.new_cases_lower,
            new_cases_upper: self.new_cases_upper,
            new_cases_avg: self.new_cases_avg,
            new_cases_avg_lower: self.new_cases_avg_lower,
            new_cases_avg_upper: self.new_cases_avg_upper,
            r_value: self.r_value@,
            r_value_lower: self.r_value_lower@,
            r_value_upper: self.r_value_upper@,
            r_value_avg: self.r_value_avg@,
            r_value_avg_lower: self.r_value_avg_lower@,
            r_value_avg_upper: self.r_value_avg_upper@,
        }
    }
}

/// The models of a sequence of records.
pub open spec fn rec_views(v: Seq<DataRecord>) -> Seq<RecordModel> {
    v.map_values(|d: DataRecord| d@)
}

impl DataRecord {
    /// A fresh record with the same fields.
    pub fn duplicate(&self) -> (r: DataRecord)
        ensures
            r@ == self@,
    {
        let r = DataRecord {
            date: self.date.clone(),
            new_cases: self.new_cases,
            new_cases_lower: self.new_cases_lower,
            new_cases_upper: self.new_cases_upper,
            new_cases_avg: self.new_cases_avg,
            new_cases_avg_lower: self.new_cases_avg_lower,
            new_cases_avg_upper: self.new_cases_avg_upper,
            r_value: self.r_value.clone(),
            r_value_lower: self.r_value_lower.clone(),
            r_value_upper: self.r_value_upper.clone(),
            r_value_avg: self.r_value_avg.clone(),
            r_value_avg_lower: self.r_value_avg_lower.clone(),
            r_value_avg_upper: self.r_value_avg_upper.clone(),
        };
        r
    }
}

} // verus!
