//! Build configuration: the inputs to compile and how to emit results.

use vstd::prelude::*;
use vstd::string::StringExecFns;

verus! {

/// What to compile and how to emit the results: the input paths, whether
/// to keep watching them, where to write, whether to lay documents out
/// readably, and whether to print the gas report.
pub struct Config {
    pub inputs: Vec<String>,
    pub watch: bool,
    pub output: String,
    pub pretty_print: bool,
    pub gas: bool,
}

impl Config {
    /// A configuration over the given inputs, with every switch off and
    /// no output directory.
    pub fn new(inputs: Vec<String>) -> (r: Config)
        ensures
            r.inputs.deep_view() == inputs.deep_view(),
            !r.watch,
            r.output@ == Seq::<char>::empty(),
            !r.pretty_print,
            !r.gas,
    {
        Config { inputs, watch: false, output: String::new(), pretty_print: false, gas: false }
    }

    /// The same configuration with the watch switch set.
    pub fn watch(self, watch: bool) -> (r: Config)
        ensures
            r == (Config { watch, ..self }),
    {
        Config { watch, ..self }
    }

    /// The same configuration with the output directory set.
    pub fn output(self, output: &str) -> (r: Config)
        ensures
            r.output@ == output@,
            r.inputs == self.inputs,
            r.watch == self.watch,
            r.pretty_print == self.pretty_print,
            r.gas == self.gas,
    {
        Config { output: String::from_str(output), ..self }
    }

    /// The same configuration with the readable layout switch set.
    pub fn pretty_print(self, pretty_print: bool) -> (r: Config)
        ensures
            r == (Config { pretty_print, ..self }),
    {
        Config { pretty_print, ..self }
    }

    /// The same configuration with the gas report switch set.
    pub fn gas(self, gas: bool) -> (r: Config)
        ensures
            r == (Config { gas, ..self }),
    {
        Config { gas, ..self }
    }
}

} // verus!
