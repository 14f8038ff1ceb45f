//! Resolved run configuration: what the configuration loader hands the
//! core, and the documented defaults for its optional fields.

use vstd::prelude::*;
use vstd::string::StringExecFns;

verus! {

/// Configuration of an ingestion run: where to read, where to persist the
/// index, and the extraction grammar to use.
#[derive(Debug)]
pub struct CheckConfig {
    pub input: String,
    pub output: Option<String>,
    pub pattern: String,
}

/// The one report renderer in scope: the plain console report.
#[derive(Clone, Copy, PartialEq, Eq, Structural, Debug)]
pub enum ShowFormat {
    Cli,
}

/// Configuration of a display run: which index file to load and how to
/// render it.
#[derive(Debug)]
pub struct ShowConfig {
    pub input: Option<String>,
    pub format: Option<ShowFormat>,
}

/// A whole resolved configuration.
#[derive(Debug)]
pub struct Config {
    pub show: Option<ShowConfig>,
    pub check: Option<CheckConfig>,
}

/// The default index file name, used when no path is given.
pub open spec fn default_index_name() -> Seq<char> {
    "index.oida"@
}

fn default_index_string() -> (r: String)
    ensures
        r@ == default_index_name(),
{
    String::from_str("index.oida")
}

impl CheckConfig {
    /// The output path to persist to: the given one, or the default index
    /// file name.
    pub fn resolved_output(&self) -> (r: String)
        ensures
            match self.output {
                Some(o) => r@ == o@,
                None => r@ == default_index_name(),
            },
    {
        match &self.output {
            Some(o) => o.clone(),
            None => default_index_string(),
        }
    }
}

impl ShowConfig {
    /// The index path to load: the given one, or the default index file
    /// name.
    pub fn resolved_input(&self) -> (r: String)
        ensures
            match self.input {
                Some(o) => r@ == o@,
                None => r@ == default_index_name(),
            },
    {
        match &self.input {
            Some(o) => o.clone(),
            None => default_index_string(),
        }
    }

    /// The renderer to use: the given one, or the console report.
    pub fn resolved_format(&self) -> (r: ShowFormat)
        ensures
            match self.format {
                Some(f) => r == f,
                None => r == ShowFormat::Cli,
            },
    {
        match self.format {
            Some(f) => f,
            None => ShowFormat::Cli,
        }
    }
}

} // verus!
