//! The hasher capability: a pure function from an ordered sequence of
//! encoded values to one digest string.
//!
//! The accumulator is parameterised over this trait so hash families can be
//! swapped per instance at construction time; any encoding-mode flag is a
//! construction-time setting of the implementation and must stay fixed for
//! the lifetime of one accumulator.

use crate::errors::MmrError;
use vstd::prelude::*;
use vstd::string::StringExecFns;

verus! {

/// A deterministic combiner of ordered encoded values into one digest.
pub trait IHasher: Sized {
    /// The digest this hasher assigns to an ordered input sequence.
    spec fn hash_spec(&self, inputs: Seq<Seq<char>>) -> Seq<char>;

    /// Combine the ordered `inputs` into one digest string.
    fn hash(&self, inputs: &Vec<String>) -> (r: Result<String, MmrError>)
        ensures
            r matches Ok(d) ==> d@ == self.hash_spec(inputs@.map_values(|s: String| s@)),
            r matches Err(e) ==> e == MmrError::BackendFailure,
    ;
}

/// The digest of the delimiting combiner: every input wrapped in
/// parentheses, in order.
pub open spec fn delim_digest(inputs: Seq<Seq<char>>) -> Seq<char>
    decreases inputs.len(),
{
    if inputs.len() == 0 {
        Seq::empty()
    } else {
        delim_digest(inputs.drop_last()) + seq!['('] + inputs.last() + seq![')']
    }
}

/// A stand-in hasher for tests and self-contained use: wraps each encoded
/// value in parentheses and concatenates, so distinct input sequences give
/// distinct digests.  Deployments that need a cryptographic commitment
/// implement [`IHasher`] with a real digest instead.
pub struct DelimHasher {}

impl DelimHasher {
    pub fn new() -> (h: Self) {
        DelimHasher {  }
    }
}

impl IHasher for DelimHasher {
    open spec fn hash_spec(&self, inputs: Seq<Seq<char>>) -> Seq<char> {
        delim_digest(inputs)
    }

    fn hash(&self, inputs: &Vec<String>) -> (r: Result<String, MmrError>) {
        let ghost mapped = inputs@.map_values(|s: String| s@);
        let mut digest = String::new();
        proof {
            reveal_strlit("(");
            reveal_strlit(")");
            assert(mapped.take(0).len() == 0);
        }
        let mut i: usize = 0;
        while i < inputs.len()
            invariant
                i <= inputs@.len(),
                mapped == inputs@.map_values(|s: String| s@),
                digest@ == delim_digest(mapped.take(i as int)),
            decreases inputs@.len() - i,
        {
            digest.append("(");
            digest.append(inputs[i].as_str());
            digest.append(")");
            i = i + 1;
            proof {
                reveal_strlit("(");
                reveal_strlit(")");
                assert(mapped.take(i as int).drop_last() =~= mapped.take(i - 1));
                assert(digest@ =~= delim_digest(mapped.take(i as int)));
            }
        }
        proof {
            assert(mapped.take(inputs@.len() as int) =~= mapped);
        }
        Ok(digest)
    }
}

} // verus!
