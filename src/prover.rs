//! A Groth16 proof as a prover service returns it, and its words for Ethereum.
use crate::converters::be_value;
use crate::command_templates::{
    u256_to_bytes32, ascii_digits_of, is_ascii_digits, parse_dec_bytes, parse_u256, U256,
};
use vstd::arithmetic::power2::pow2;
use vstd::prelude::*;
use vstd::string::StringSliceAdditionalSpecFns;
use vstd::utf8::encode_utf8;

verus! {

/// A proof as decimal strings: the points `pi_a`, `pi_b` and `pi_c`.
#[derive(Debug, Clone)]
pub struct ProofJson {
    pub pi_a: Vec<String>,
    pub pi_b: Vec<Vec<String>>,
    pub pi_c: Vec<String>,
}

/// A prover's answer: the proof and its public signals.
#[derive(Debug, Clone)]
pub struct ProverRes {
    pub proof: ProofJson,
    pub pub_signals: Vec<String>,
}

/// Why a proof could not be turned into words.
#[derive(Debug, Clone, Copy, PartialEq, Eq)]
pub enum ProofError {
    /// A coordinate is missing.
    MissingCoordinate,
    /// A coordinate is not a decimal number below `2^256`.
    InvalidCoordinate,
}

/// The decimal value of a coordinate, where it is one below `2^256`.
pub open spec fn coordinate_value(s: Seq<char>) -> Option<nat> {
    let b = encode_utf8(s);
    if is_ascii_digits(b) && parse_dec_bytes(b) < pow2(256) {
        Some(parse_dec_bytes(b))
    } else {
        None
    }
}

/// The coordinates in the order the on-chain verifier takes them: `pi_a`, then
/// each pair of `pi_b` with its two halves swapped, then `pi_c`.
pub open spec fn proof_coordinates(p: ProofJson) -> Seq<Seq<char>> {
    seq![
        p.pi_a@[0]@,
        p.pi_a@[1]@,
        p.pi_b@[0]@[1]@,
        p.pi_b@[0]@[0]@,
        p.pi_b@[1]@[1]@,
        p.pi_b@[1]@[0]@,
        p.pi_c@[0]@,
        p.pi_c@[1]@,
    ]
}

/// Whether the proof has every coordinate that the verifier takes.
pub open spec fn has_coordinates(p: ProofJson) -> bool {
    p.pi_a@.len() >= 2 && p.pi_b@.len() >= 2 && p.pi_b@[0]@.len() >= 2 && p.pi_b@[1]@.len() >= 2
        && p.pi_c@.len() >= 2
}

fn coordinate(s: &String) -> (r: Result<U256, ProofError>)
    ensures
        match coordinate_value(s@) {
            Some(v) => r matches Ok(u) && u.value() == v,
            None => r == Err::<U256, ProofError>(ProofError::InvalidCoordinate),
        },
{
    let b = s.as_str().as_bytes();
    if !ascii_digits_of(b) {
        return Err(ProofError::InvalidCoordinate);
    }
    match parse_u256(b) {
        Some(u) => Ok(u),
        None => Err(ProofError::InvalidCoordinate),
    }
}

impl ProofJson {
    /// The eight 256-bit words that encode the proof for the on-chain verifier,
    /// in the order of `proof_coordinates`.
    pub fn to_eth_words(&self) -> (r: Result<Vec<U256>, ProofError>)
        ensures
            !has_coordinates(*self) ==> r == Err::<Vec<U256>, ProofError>(
                ProofError::MissingCoordinate,
            ),
            has_coordinates(*self) ==> {
                &&& (r is Ok <==> forall|i: int|
                    0 <= i < 8 ==> coordinate_value(#[trigger] proof_coordinates(*self)[i]) is Some)
                &&& r matches Ok(ws) ==> ws@.len() == 8 && forall|i: int|
                    0 <= i < 8 ==> Some((#[trigger] ws@[i]).value()) == coordinate_value(
                        proof_coordinates(*self)[i],
                    )
                &&& r matches Err(e) ==> e == ProofError::InvalidCoordinate
            },
    {
        if self.pi_a.len() < 2 || self.pi_b.len() < 2 || self.pi_b[0].len() < 2
            || self.pi_b[1].len() < 2 || self.pi_c.len() < 2 {
            return Err(ProofError::MissingCoordinate);
        }
        assert(has_coordinates(*self));
        let ghost cs = proof_coordinates(*self);
        let order: [&String; 8] = [
            &self.pi_a[0],
            &self.pi_a[1],
            &self.pi_b[0][1],
            &self.pi_b[0][0],
            &self.pi_b[1][1],
            &self.pi_b[1][0],
            &self.pi_c[0],
            &self.pi_c[1],
        ];
        let mut ws: Vec<U256> = Vec::new();
        let mut i: usize = 0;
        while i < 8
            invariant
                i <= 8,
                has_coordinates(*self),
                cs == proof_coordinates(*self),
                forall|j: int| 0 <= j < 8 ==> (#[trigger] order@[j])@ == cs[j],
                ws@.len() == i,
                forall|j: int| 0 <= j < i ==> Some((#[trigger] ws@[j]).value()) == coordinate_value(cs[j]),
            decreases 8 - i,
        {
            match coordinate(order[i]) {
                Ok(u) => ws.push(u),
                Err(e) => {
                    assert(coordinate_value(proof_coordinates(*self)[i as int]) is None);
                    return Err(e);
                },
            }
            i = i + 1;
        }
        assert forall|i: int| 0 <= i < 8 implies coordinate_value(
            #[trigger] proof_coordinates(*self)[i],
        ) is Some by {
            assert(Some(ws@[i].value()) == coordinate_value(cs[i]));
        }
        Ok(ws)
    }

    /// The proof as the on-chain verifier takes it: the eight words of
    /// `to_eth_words`, each as 32 big-endian bytes.
    pub fn to_eth_bytes(&self) -> (r: Result<Vec<u8>, ProofError>)
        ensures
            !has_coordinates(*self) ==> r == Err::<Vec<u8>, ProofError>(ProofError::MissingCoordinate),
            has_coordinates(*self) ==> {
                &&& (r is Ok <==> forall|i: int|
                    0 <= i < 8 ==> coordinate_value(#[trigger] proof_coordinates(*self)[i]) is Some)
                &&& r matches Ok(b) ==> b@.len() == 256 && forall|i: int|
                    0 <= i < 8 ==> Some(be_value(#[trigger] b@.subrange(32 * i, 32 * i + 32)))
                        == coordinate_value(proof_coordinates(*self)[i])
                &&& r matches Err(e) ==> e == ProofError::InvalidCoordinate
            },
    {
        let words = match self.to_eth_words() {
            Ok(w) => w,
            Err(e) => {
                return Err(e);
            },
        };
        let ghost cs = proof_coordinates(*self);
        let mut out: Vec<u8> = Vec::new();
        let mut i: usize = 0;
        while i < 8
            invariant
                i <= 8,
                words@.len() == 8,
                has_coordinates(*self),
                cs == proof_coordinates(*self),
                forall|j: int| 0 <= j < 8 ==> Some((#[trigger] words@[j]).value()) == coordinate_value(cs[j]),
                out@.len() == 32 * i,
                forall|j: int| 0 <= j < i ==> Some(be_value(#[trigger] out@.subrange(32 * j, 32 * j + 32)))
                    == coordinate_value(cs[j]),
            decreases 8 - i,
        {
            let mut w = u256_to_bytes32(&words[i]);
            let ghost before = out@;
            let ghost wv = w@;
            out.append(&mut w);
            assert forall|j: int| 0 <= j < i + 1 implies Some(be_value(#[trigger] out@.subrange(32 * j, 32 * j + 32)))
                == coordinate_value(cs[j]) by {
                if j < i {
                    assert(out@.subrange(32 * j, 32 * j + 32) =~= before.subrange(32 * j, 32 * j + 32));
                } else {
                    assert(out@.subrange(32 * j, 32 * j + 32) =~= wv);
                }
            }
            i = i + 1;
        }
        Ok(out)
    }
}

} // verus!
