use vstd::prelude::*;

use crate::features::DiagnosticFormat;

verus! {

/// How compilation results are reported.
#[derive(Debug, Clone, Copy)]
pub struct DiagnosticHandler {
    /// The diagnostic format to use.
    pub diagnostic_format: DiagnosticFormat,
    /// Whether to print the compile status.
    pub print_compile_status: bool,
}

impl DiagnosticHandler {
    /// Human-readable diagnostics, no status.
    pub fn new() -> (r: DiagnosticHandler)
        ensures
            r.diagnostic_format == DiagnosticFormat::Human,
            !r.print_compile_status,
    {
        DiagnosticHandler { diagnostic_format: DiagnosticFormat::default_format(), print_compile_status: false }
    }

    /// Whether a status report is printed.
    pub fn should_print_status(&self) -> (r: bool)
        ensures
            r == self.print_compile_status,
    {
        self.print_compile_status
    }

    /// Splits the outcome of a compilation into its result and the
    /// diagnostics to print: the warnings of a success, or the errors of a
    /// failure. Nothing is printed when there are none.
    pub fn report_compiled<T, D>(&self, output: Result<T, Vec<D>>, warnings: Vec<D>) -> (r: (Option<T>, Vec<D>))
        ensures
            match output {
                Ok(doc) => r.0 == Some(doc) && r.1@ == warnings@,
                Err(diag) => r.0 is None && r.1@ == diag@,
            },
    {
        match output {
            Ok(doc) => (Some(doc), warnings),
            Err(diag) => (None, diag),
        }
    }
}

} // verus!
