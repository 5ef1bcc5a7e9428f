//! The boundary to the line source: which lines were read, and which read failed.

use vstd::prelude::*;

verus! {

/// A line of the source could not be read.
#[derive(Clone, Copy, Debug, PartialEq, Eq, Structural)]
pub struct SourceReadFailure {
    /// The position of the first line whose read failed.
    pub position: usize,
}

/// The position of the first failed read, where `None` stands for a read that failed.
pub open spec fn is_first_failed(reads: Seq<Option<String>>, position: int) -> bool {
    &&& 0 <= position < reads.len()
    &&& reads[position] is None
    &&& forall|i: int| 0 <= i < position ==> (#[trigger] reads[i]) is Some
}

/// Turns the reads of a source into its lines.
///
/// Each element of `reads` is the text of one line, or `None` where reading
/// that line failed. If every read succeeded, the result holds the lines in
/// order. Otherwise it is the failure, with the position of the first read
/// that failed.
pub fn lines_read(reads: &[Option<String>]) -> (r: Result<Vec<String>, SourceReadFailure>)
    ensures
        match r {
            Ok(lines) => {
                &&& lines@.len() == reads@.len()
                &&& forall|i: int| 0 <= i < reads@.len() ==> #[trigger] reads@[i] == Some(lines@[i])
            },
            Err(failure) => is_first_failed(reads@, failure.position as int),
        },
{
    let mut lines: Vec<String> = Vec::new();
    let mut i: usize = 0;
    while i < reads.len()
        invariant
            i <= reads.len(),
            lines@.len() == i,
            forall|j: int| 0 <= j < i ==> #[trigger] reads@[j] == Some(lines@[j]),
        decreases reads.len() - i,
    {
        match &reads[i] {
            Some(text) => {
                lines.push(text.clone());
            },
            None => {
                return Err(SourceReadFailure { position: i });
            },
        }
        i += 1;
    }
    Ok(lines)
}

} // verus!
