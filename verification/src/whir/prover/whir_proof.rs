//! What the prover hands over beside the transcript.
use crate::field::{Ext, Felt};
use crate::merkle::{openings_view, Leafs, OpeningsView, Proof};
use vstd::prelude::*;

verus! {

/// The openings of all commitments, and the values of the linear weights of the statement at the
/// point that the challenges make up.
#[derive(Debug, PartialEq, Eq)]
pub struct WhirProof {
    pub commitment_merkle_paths: (Leafs<Felt>, Proof),
    pub merkle_paths: Vec<(Leafs<Ext>, Proof)>,
    pub statement_values_at_random_point: Vec<Ext>,
}

/// A proof, as sequences.
#[verifier::ext_equal]
pub struct WhirProofView {
    pub commitment_merkle_paths: OpeningsView<Felt>,
    pub merkle_paths: Seq<OpeningsView<Ext>>,
    pub statement_values_at_random_point: Seq<Ext>,
}

/// The openings of several commitments.
pub open spec fn all_openings(opened: Seq<(Leafs<Ext>, Proof)>) -> Seq<OpeningsView<Ext>> {
    Seq::new(opened.len(), |i: int| openings_view(opened[i]))
}

impl View for WhirProof {
    type V = WhirProofView;

    open spec fn view(&self) -> WhirProofView {
        WhirProofView {
            commitment_merkle_paths: openings_view(self.commitment_merkle_paths),
            merkle_paths: all_openings(self.merkle_paths@),
            statement_values_at_random_point: self.statement_values_at_random_point@,
        }
    }
}

} // verus!
