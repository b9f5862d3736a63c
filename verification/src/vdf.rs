//! The verifiable delay function.
//!
//! The delay function is computed by an outside collaborator. Its solution
//! for a challenge and difficulty is deterministic, so the library names
//! it: equal inputs give equal solutions, in every process. The challenge
//! fed to it is the digest of the caller's input.

use vstd::prelude::*;

use crate::hash::{blake3_of, hash};

verus! {

/// The security parameter handed to the delay function: the modulus size
/// in bits.
pub const VDF_INT_SIZE_BITS: u16 = 2048;

/// The least difficulty the delay function refuses: its solver accepts
/// only iteration counts below two to the fifty-third.
pub const VDF_DIFFICULTY_LIMIT: u64 = 0x20_0000_0000_0000;

/// Errors of the delay function.
#[derive(Debug, Clone, Copy, PartialEq, Eq, Structural)]
pub enum VdfError {
    /// The evaluation failed.
    EvaluationFailed,
    /// The proof does not verify.
    VerificationFailed,
    /// The proof is malformed.
    InvalidProof,
}

/// A solved delay: the output, the proof that lets a verifier check it
/// quickly, and the difficulty it was solved at. With this collaborator
/// the solution is its own proof.
#[derive(Debug, Clone, PartialEq, Eq)]
pub struct VdfProof {
    /// The output of the delay.
    pub output: Vec<u8>,
    /// The bytes a verifier checks.
    pub proof: Vec<u8>,
    /// The difficulty: the number of sequential steps.
    pub iterations: u64,
}

impl VdfProof {
    /// A proof from its parts.
    pub fn new(output: Vec<u8>, proof: Vec<u8>, iterations: u64) -> (r: Self)
        ensures
            r.output@ == output@,
            r.proof@ == proof@,
            r.iterations == iterations,
    {
        VdfProof { output, proof, iterations }
    }

    /// The output of the delay.
    pub fn output(&self) -> (r: &[u8])
        ensures
            r@ == self.output@,
    {
        self.output.as_slice()
    }
}

/// The solution of the delay function for a challenge and difficulty, on
/// which alone it depends. The collaborator documents that exactly one
/// alleged solution verifies for a challenge and difficulty — this one.
pub uninterp spec fn wesolowski_of(challenge: Seq<u8>, difficulty: u64) -> Seq<u8>;

/// Relies on vdf::WesolowskiVDF::solve: the deterministic solution of the
/// delay for the challenge at the difficulty. Its source asserts that the
/// difficulty lies below two to the fifty-third, so larger ones are kept
/// out; within that bound it fails only on a difficulty beyond the
/// machine's address range.
#[verifier::external_body]
fn wesolowski_solve(challenge: &[u8], difficulty: u64) -> (r: Result<Vec<u8>, VdfError>)
    requires
        difficulty < VDF_DIFFICULTY_LIMIT,
    ensures
        r matches Ok(v) ==> v@ == wesolowski_of(challenge@, difficulty),
        r matches Err(e) ==> e == VdfError::EvaluationFailed,
        (difficulty <= usize::MAX) <==> r is Ok,
{
    let params = vdf::VDFParams::new(vdf::WesolowskiVDFParams(VDF_INT_SIZE_BITS));
    vdf::VDF::solve(&params, challenge, difficulty).map_err(|_| VdfError::EvaluationFailed)
}

/// Solves the delay for an input: the challenge is the input's digest.
/// Solving is intentionally slow, linear in the difficulty. A difficulty
/// at or beyond the solver's limit is refused.
pub fn evaluate(input: &[u8], iterations: u64) -> (r: Result<Vec<u8>, VdfError>)
    ensures
        r matches Ok(v) ==> v@ == wesolowski_of(blake3_of(input@), iterations),
        r matches Err(e) ==> e == VdfError::EvaluationFailed,
        (iterations < VDF_DIFFICULTY_LIMIT && iterations <= usize::MAX) <==> r is Ok,
{
    if iterations >= VDF_DIFFICULTY_LIMIT {
        return Err(VdfError::EvaluationFailed);
    }
    let challenge = hash(input);
    wesolowski_solve(challenge.as_slice(), iterations)
}

/// Solves the delay for an input and wraps the solution as a proof: with
/// this collaborator the solution serves as its own proof.
pub fn prove(input: &[u8], iterations: u64) -> (r: Result<VdfProof, VdfError>)
    ensures
        r matches Ok(p) ==> {
            &&& p.output@ == wesolowski_of(blake3_of(input@), iterations)
            &&& p.proof@ == p.output@
            &&& p.iterations == iterations
        },
        r matches Err(e) ==> e == VdfError::EvaluationFailed,
        (iterations < VDF_DIFFICULTY_LIMIT && iterations <= usize::MAX) <==> r is Ok,
{
    let output = match evaluate(input, iterations) {
        Ok(v) => v,
        Err(e) => {
            return Err(e);
        },
    };
    let mut copy: Vec<u8> = Vec::new();
    let n = output.len();
    let mut k: usize = 0;
    while k < n
        invariant
            n == output@.len(),
            0 <= k <= n,
            copy@ =~= output@.subrange(0, k as int),
        decreases n - k,
    {
        copy.push(output[k]);
        proof {
            assert(copy@ =~= output@.subrange(0, k + 1));
        }
        k += 1;
    }
    proof {
        assert(output@.subrange(0, n as int) =~= output@);
    }
    Ok(VdfProof { output, proof: copy, iterations })
}

/// Checks an alleged solution for an input: the challenge is the input's
/// digest. The collaborator's quick check aborts on bytes that belong to
/// another challenge, so the solution is recomputed and compared instead;
/// by the collaborator's uniqueness guarantee that decides the same
/// question.
pub fn verify(input: &[u8], vdf_proof: &VdfProof) -> (r: bool)
    ensures
        r ==> vdf_proof.output@ == wesolowski_of(blake3_of(input@), vdf_proof.iterations),
        (vdf_proof.iterations < VDF_DIFFICULTY_LIMIT && vdf_proof.iterations <= usize::MAX) ==> r
            == (vdf_proof.output@ == wesolowski_of(blake3_of(input@), vdf_proof.iterations)),
{
    let expected = match evaluate(input, vdf_proof.iterations) {
        Ok(v) => v,
        Err(_) => {
            // without the recomputed solution nothing verifies; a proof
            // carrying a difficulty the solver refuses cannot be checked
            // and is turned away
            return false;
        },
    };
    bytes_equal(&expected, &vdf_proof.output)
}

/// Whether two byte vectors hold the same bytes.
fn bytes_equal(a: &Vec<u8>, b: &Vec<u8>) -> (r: bool)
    ensures
        r == (a@ == b@),
{
    if a.len() != b.len() {
        return false;
    }
    let n = a.len();
    let mut k: usize = 0;
    while k < n
        invariant
            n == a@.len() == b@.len(),
            0 <= k <= n,
            forall|t: int| 0 <= t < k ==> a@[t] == b@[t],
        decreases n - k,
    {
        if a[k] != b[k] {
            return false;
        }
        k += 1;
    }
    proof {
        assert(a@ =~= b@);
    }
    true
}

} // verus!
