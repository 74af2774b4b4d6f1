use vstd::prelude::*;

verus! {

#[derive(Clone, Debug)]
pub enum Command {
    /// Import transactions from CSV file
    Import(Import),
    /// Show report
    Report(Report),
    /// Allocate budgets
    Allocate(Allocate),
}

#[derive(Clone, Debug)]
pub struct Import {
    /// The CSV file to import transactions from
    pub file: String,
}

#[derive(Clone, Debug)]
pub struct Report;

#[derive(Clone, Debug)]
pub struct Allocate;

} // verus!
