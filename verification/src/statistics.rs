//! Names of statistics.

use vstd::prelude::*;
use vstd::string::StringExecFns;

verus! {

/// Names the statistics of one part of the solver: each name that it hands
/// out starts with the prefix of the logger.
#[derive(Debug)]
pub struct StatisticLogger {
    name_prefix: String,
}

impl StatisticLogger {
    /// The prefix of the names.
    pub closed spec fn prefix(&self) -> Seq<char> {
        self.name_prefix@
    }

    pub fn new(name_prefix: &str) -> (r: StatisticLogger)
        ensures
            r.prefix() == name_prefix@,
    {
        StatisticLogger { name_prefix: String::from_str(name_prefix) }
    }

    /// The name under which the statistic `name` of this logger is logged.
    pub fn statistic_name(&self, name: &str) -> (r: String)
        ensures
            r@ == self.prefix() + name@,
    {
        let mut full = self.name_prefix.clone();
        full.append(name);
        full
    }

    /// The line that logs the statistic with the provided `name` and
    /// `value`: the full name, an equals sign and the value.
    pub fn log_statistic(&self, name: &str, value: &str) -> (r: String)
        ensures
            r@ == self.prefix() + name@ + "="@ + value@,
    {
        let mut line = self.statistic_name(name);
        line.append("=");
        line.append(value);
        line
    }
}

} // verus!
