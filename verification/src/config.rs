//! The settings of a concatenation run: hull number, date and the directories
//! that they select.
use vstd::prelude::*;

use crate::dates::{chrono_date, parse_date, year_text, zero_padded, CalendarDate};
use crate::text::{replace_all, replaced, string_of_str};

verus! {

/// The format of the date argument.
pub const DATE_FORMAT: &'static str = "%Y%m%d";

/// An environment variable that the settings need.
#[derive(PartialEq, Eq, Structural, Clone, Copy, Debug)]
pub enum EnvVar {
    DataSource,
    DpPath,
}

/// Why the settings cannot be made.
pub enum ConfigError {
    /// The date argument is not a date in `DATE_FORMAT`; chrono's message.
    Date(String),
    /// A needed environment variable is not set.
    MissingVar(EnvVar),
}

/// The settings of a run.
pub struct Config {
    pub base: String,
    pub out: String,
    pub data_dir: String,
    pub dp_dir: String,
    pub imo: String,
    pub date: CalendarDate,
}

/// The hull number with every "IMO" taken out.
pub open spec fn imo_number(imo: Seq<char>) -> Seq<char> {
    replaced(imo, "IMO"@, ""@)
}

/// The directory of a day's data files:
/// `<source>/IMO<imo>/<year>/<month>/<day>`, the date parts as chrono
/// formats `%Y`, `%m` and `%d`.
pub open spec fn data_dir_text(source: Seq<char>, imo: Seq<char>, d: CalendarDate) -> Seq<char> {
    source + "/IMO"@ + imo + "/"@ + year_text(d.year as int) + "/"@ + zero_padded(d.month as nat, 2)
        + "/"@ + zero_padded(d.day as nat, 2)
}

/// The hull number `imo` with every "IMO" taken out.
pub fn normalize_imo(imo: &str) -> (r: String)
    ensures
        r@ == imo_number(imo@),
{
    replace_all(imo, "IMO", "")
}

/// The directory of the data files of hull `imo` on `date` under `source`.
pub fn data_dir_path(source: &str, imo: &str, date: &CalendarDate) -> (r: String)
    ensures
        r@ == data_dir_text(source@, imo@, *date),
{
    let mut out = string_of_str(source);
    out.append("/IMO");
    out.append(imo);
    out.append("/");
    out.append(date.year_text().as_str());
    out.append("/");
    out.append(date.month_text().as_str());
    out.append("/");
    out.append(date.day_text().as_str());
    out
}

impl Config {
    /// The settings from the base directory, the output directory, the hull
    /// number and date arguments, and the values of the `DATA_SOURCE` and
    /// `DP_PATH` environment variables (`None` where unset). The date is read
    /// first, then `DATA_SOURCE`, then `DP_PATH`; the first that fails decides
    /// the error.
    pub fn new(
        base: String,
        out: String,
        imo: &str,
        date: &str,
        data_source: Option<String>,
        dp_path: Option<String>,
    ) -> (r: Result<Config, ConfigError>)
        ensures
            match chrono_date(date@, DATE_FORMAT@) {
                None => r matches Err(ConfigError::Date(_)),
                Some((y, m, d)) => match (data_source, dp_path) {
                    (None, _) => r matches Err(ConfigError::MissingVar(v)) && v == EnvVar::DataSource,
                    (Some(_), None) => r matches Err(ConfigError::MissingVar(v)) && v
                        == EnvVar::DpPath,
                    (Some(source), Some(dp)) => r matches Ok(c) && c.base == base && c.out == out
                        && c.imo@ == imo_number(imo@) && c.date.year == y && c.date.month == m
                        && c.date.day == d && c.data_dir@ == data_dir_text(source@, c.imo@, c.date)
                        && c.dp_dir == dp,
                },
            },
    {
        match parse_date(date, DATE_FORMAT) {
            Ok(d) => Config::from_date(base, out, imo, d, data_source, dp_path),
            Err(e) => Err(ConfigError::Date(e)),
        }
    }

    /// The settings for the date `date` once it has been read: as `new` makes
    /// them, `DATA_SOURCE` checked before `DP_PATH`.
    pub fn from_date(
        base: String,
        out: String,
        imo: &str,
        date: CalendarDate,
        data_source: Option<String>,
        dp_path: Option<String>,
    ) -> (r: Result<Config, ConfigError>)
        ensures
            match (data_source, dp_path) {
                (None, _) => r matches Err(ConfigError::MissingVar(v)) && v == EnvVar::DataSource,
                (Some(_), None) => r matches Err(ConfigError::MissingVar(v)) && v == EnvVar::DpPath,
                (Some(source), Some(dp)) => r matches Ok(c) && c.base == base && c.out == out
                    && c.imo@ == imo_number(imo@) && c.date == date && c.data_dir@
                    == data_dir_text(source@, c.imo@, date) && c.dp_dir == dp,
            },
    {
        let imo = normalize_imo(imo);
        let source = match data_source {
            Some(s) => s,
            None => return Err(ConfigError::MissingVar(EnvVar::DataSource)),
        };
        let dp_dir = match dp_path {
            Some(p) => p,
            None => return Err(ConfigError::MissingVar(EnvVar::DpPath)),
        };
        let data_dir = data_dir_path(source.as_str(), imo.as_str(), &date);
        Ok(Config { base, out, data_dir, dp_dir, imo, date })
    }
}

} // verus!
