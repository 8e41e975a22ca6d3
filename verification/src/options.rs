use vstd::prelude::*;
use crate::errors::Errors;

verus! {

/// Which index implementation the engine uses. Only the ordered-map
/// variant is implemented; the skip-list variant is declared for
/// compatibility and rejected at open.
#[derive(Clone, Copy, Debug, PartialEq, Eq, Structural)]
pub enum IndexType {
    BTree,
    SkipList,
}

/// Engine configuration.
#[derive(Clone, Debug)]
pub struct Options {
    /// Directory that holds the segment files. The verified engine never
    /// touches the file system itself; the path is carried for the caller
    /// that mirrors segments to disk.
    pub dir_path: String,
    /// Soft cap on one segment's size: a segment rotates when the next
    /// record would make it exceed this bound.
    pub data_file_size: u64,
    /// Whether every mutating operation asks for a durable flush.
    pub sync_writes: bool,
    /// Index implementation selector.
    pub index_type: IndexType,
}

/// Checks a configuration, exactly as `Engine::new` does.
pub fn check_options(opts: &Options) -> (r: Result<(), Errors>)
    ensures
        r is Ok <==> opts.data_file_size > 0,
        r is Err ==> r == Err::<(), Errors>(Errors::DatafileSizeTooSmall),
{
    if opts.data_file_size == 0 {
        return Err(Errors::DatafileSizeTooSmall);
    }
    Ok(())
}

/// Options for an engine or index iterator. A key filter predicate is
/// given to the filtered iterator constructors directly rather than
/// stored here: Verus does not yet support `dyn` closure fields.
#[derive(Clone, Copy, Debug, PartialEq, Eq, Structural)]
pub struct IteratorOptions {
    /// Yield keys in descending instead of ascending byte-lex order.
    pub reverse: bool,
}

impl Default for IteratorOptions {
    fn default() -> (r: Self)
        ensures
            r.reverse == false,
    {
        IteratorOptions { reverse: false }
    }
}

/// Options for a write batch.
#[derive(Clone, Copy, Debug, PartialEq, Eq, Structural)]
pub struct WriteBatchOptions {
    /// Largest number of staged records a single commit accepts.
    pub batch_size: u32,
    /// Whether a successful commit asks for a durable flush.
    pub sync_on_commit: bool,
}

impl Default for WriteBatchOptions {
    fn default() -> (r: Self)
        ensures
            r.batch_size == 8 * 1024 * 1024,
            r.sync_on_commit == true,
    {
        WriteBatchOptions { batch_size: 8 * 1024 * 1024, sync_on_commit: true }
    }
}

} // verus!
