//! Padding of peak and proof hash lists to a caller-declared fixed width.
//!
//! Downstream consumers that expect fixed-arity arrays receive every list
//! right-padded with copies of a sentinel value; a list that is already
//! longer than the declared width is rejected, never truncated.

use crate::errors::MmrError;
use vstd::prelude::*;

verus! {

/// A fixed output width and the sentinel that fills unused slots.  The
/// sentinel must be distinguishable from any real hash by convention of the
/// caller.
#[derive(Clone)]
pub struct FormattingOptions {
    pub output_size: usize,
    pub null_value: String,
}

pub type PeaksFormattingOptions = FormattingOptions;

pub type ProofFormattingOptions = FormattingOptions;

/// The sequence `s` padded on the right with `null_value` up to
/// `output_size` entries.
pub open spec fn spec_padded(s: Seq<Seq<char>>, output_size: nat, null_value: Seq<char>) -> Seq<
    Seq<char>,
> {
    s + Seq::new((output_size - s.len()) as nat, |i: int| null_value)
}

/// Pad `hashes` on the right with the sentinel until it holds exactly
/// `output_size` entries; reject a list that is already longer.
fn format_hashes(hashes: Vec<String>, formatting_opts: &FormattingOptions) -> (r: Result<
    Vec<String>,
    MmrError,
>)
    ensures
        r is Ok <==> hashes@.len() <= formatting_opts.output_size,
        r matches Ok(v) ==> v@.map_values(|h: String| h@) == spec_padded(
            hashes@.map_values(|h: String| h@),
            formatting_opts.output_size as nat,
            formatting_opts.null_value@,
        ),
        r matches Err(e) ==> e == MmrError::FormattingOverflow,
{
    if hashes.len() > formatting_opts.output_size {
        return Err(MmrError::FormattingOverflow);
    }
    let ghost original = hashes@;
    let mut result = hashes;
    while result.len() < formatting_opts.output_size
        invariant
            original.len() <= result.len() <= formatting_opts.output_size,
            forall|i: int| 0 <= i < original.len() ==> result@[i] == original[i],
            forall|i: int|
                original.len() <= i < result@.len() ==> result@[i]@
                    == formatting_opts.null_value@,
        decreases formatting_opts.output_size - result.len(),
    {
        let filler = formatting_opts.null_value.clone();
        result.push(filler);
    }
    proof {
        assert(result@.map_values(|h: String| h@) =~= spec_padded(
            original.map_values(|h: String| h@),
            formatting_opts.output_size as nat,
            formatting_opts.null_value@,
        ));
    }
    Ok(result)
}

/// Pad a peak hash list to the declared fixed width.
pub fn format_peaks(peaks: Vec<String>, formatting_opts: &PeaksFormattingOptions) -> (r: Result<
    Vec<String>,
    MmrError,
>)
    ensures
        r is Ok <==> peaks@.len() <= formatting_opts.output_size,
        r matches Ok(v) ==> v@.map_values(|h: String| h@) == spec_padded(
            peaks@.map_values(|h: String| h@),
            formatting_opts.output_size as nat,
            formatting_opts.null_value@,
        ),
        r matches Err(e) ==> e == MmrError::FormattingOverflow,
{
    format_hashes(peaks, formatting_opts)
}

/// Pad a proof's sibling hash list to the declared fixed width.
pub fn format_proof(siblings_hashes: Vec<String>, formatting_opts: ProofFormattingOptions) -> (r:
    Result<Vec<String>, MmrError>)
    ensures
        r is Ok <==> siblings_hashes@.len() <= formatting_opts.output_size,
        r matches Ok(v) ==> v@.map_values(|h: String| h@) == spec_padded(
            siblings_hashes@.map_values(|h: String| h@),
            formatting_opts.output_size as nat,
            formatting_opts.null_value@,
        ),
        r matches Err(e) ==> e == MmrError::FormattingOverflow,
{
    format_hashes(siblings_hashes, &formatting_opts)
}

} // verus!
