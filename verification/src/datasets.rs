//! Where the editing traces that the tools read are kept.

use vstd::prelude::*;
use vstd::string::StringExecFns;

verus! {

/// The file of the trace `trace` below the directory `stem`.
pub fn filename_for(stem: &str, trace: &str) -> (r: String)
    ensures
        r@ == stem@ + "/datasets/"@ + trace@ + ".dt"@,
{
    String::from_str(stem).concat("/datasets/").concat(trace).concat(".dt")
}

/// The file of the packed JSON trace `name` among the benchmark data.
pub fn testing_data_filename(name: &str) -> (r: String)
    ensures
        r@ == "benchmark_data/"@ + name@ + ".json.gz"@,
{
    String::from_str("benchmark_data/").concat(name).concat(".json.gz")
}

/// The file of the sequential trace `name`.
pub fn linear_testing_data_filename(name: &str) -> (r: String)
    ensures
        r@ == "../../editing-traces/sequential_traces/"@ + name@ + ".json.gz"@,
{
    String::from_str("../../editing-traces/sequential_traces/").concat(name).concat(".json.gz")
}

} // verus!
