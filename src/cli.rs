use vstd::prelude::*;

verus! {

/// The command-line settings of a conversion.
#[derive(Debug)]
pub struct Args {
    /// The directory that receives the region files.
    pub out: String,
    /// The number of worker threads; zero picks one per CPU.
    pub threads: u8,
    /// With a positive value, only regions with `x` and `z` in
    /// `[-range, range)` are converted; zero converts all.
    pub range: u32,
    /// The database file of far-render sections.
    pub db_path: String,
}

} // verus!
