//! The command-line surface: which direction to convert, where to read and
//! write, and the column names under which tabular input is read. Argument
//! parsing itself lives with the caller; these are the plain values it hands
//! over.

use crate::io::{ColumnsView, EventLogColumns};
use vstd::prelude::*;

verus! {

/// Which direction to convert.
#[derive(Debug)]
pub enum Action {
    XesToCsv,
    CsvToXes,
}

/// The arguments of one conversion: the direction, the input log path, the
/// output directory, whether to drop reserved sentinel events, and the six
/// column names under which tabular input is read.
#[derive(Debug)]
pub struct Args {
    pub action: Action,
    pub input_log: String,
    pub output_dir: String,
    pub no_start_events: bool,
    pub case: String,
    pub activity: String,
    pub resource: String,
    pub start_time: String,
    pub end_time: String,
    pub variant: String,
}

impl Args {
    /// The column configuration the arguments name.
    pub fn columns(&self) -> (r: EventLogColumns)
        ensures
            r@ == (ColumnsView {
                case: self.case@,
                variant: self.variant@,
                activity: self.activity@,
                resource: self.resource@,
                start_time: self.start_time@,
                end_time: self.end_time@,
            }),
    {
        EventLogColumns {
            case: self.case.clone(),
            variant: self.variant.clone(),
            activity: self.activity.clone(),
            resource: self.resource.clone(),
            start_time: self.start_time.clone(),
            end_time: self.end_time.clone(),
        }
    }
}

} // verus!
