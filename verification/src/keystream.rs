//! The one-time pad of the encryption schemes: a message XOR-ed with the SHAKE256 output
//! for the shared secret.
use sha3::digest::ExtendableOutput;
use sha3::Shake256;
use vstd::prelude::*;

verus! {

/// The first `len` bytes of SHAKE256's output for `input`.
pub uninterp spec fn shake256_output(input: Seq<u8>, len: nat) -> Seq<u8>;

/// `ExtendableOutput::digest_xof` for `sha3::Shake256`: a hasher fed `input`, whose output
/// reader fills a buffer of `len` bytes. SHAKE256 is a fixed function of its input, so the
/// bytes are named `shake256_output(input, len)`; that the buffer keeps its length is all
/// that is said of them.
#[verifier::external_body]
fn shake256(input: &[u8], len: usize) -> (r: Vec<u8>)
    ensures
        r@ == shake256_output(input@, len as nat),
        r@.len() == len,
{
    let mut out = vec![0u8; len];
    Shake256::digest_xof(input, &mut out);
    out
}

/// `pad` XOR-ed with `message`, byte by byte, as long as `message`.
pub open spec fn xor_bytes(pad: Seq<u8>, message: Seq<u8>) -> Seq<u8> {
    Seq::new(message.len(), |i: int| pad[i] ^ message[i])
}

/// Encrypts (or decrypts) `message` with the SHAKE256 output for `key_material`: each byte
/// of the result is the byte of that output at the same place XOR-ed with the message's.
pub fn apply_keystream(key_material: &[u8], message: &[u8]) -> (r: Vec<u8>)
    ensures
        r@ == xor_bytes(shake256_output(key_material@, message@.len()), message@),
{
    let mut out = shake256(key_material, message.len());
    let ghost pad = out@;
    let mut i: usize = 0;
    while i < message.len()
        invariant
            i <= message@.len(),
            pad == shake256_output(key_material@, message@.len()),
            pad.len() == message@.len(),
            out@.len() == message@.len(),
            forall|j: int| 0 <= j < i ==> #[trigger] out@[j] == pad[j] ^ message@[j],
            forall|j: int| i <= j < out@.len() ==> #[trigger] out@[j] == pad[j],
        decreases message@.len() - i,
    {
        let b = out[i] ^ message[i];
        out.set(i, b);
        i += 1;
    }
    proof {
        assert(out@ =~= xor_bytes(pad, message@));
    }
    out
}

/// Decryption undoes encryption: XOR-ing the same pad twice gives the message back.
pub proof fn lemma_keystream_undoes_itself(key_material: Seq<u8>, message: Seq<u8>)
    ensures
        ({
            let pad = shake256_output(key_material, message.len());
            xor_bytes(pad, xor_bytes(pad, message)) == message
        }),
{
    let pad = shake256_output(key_material, message.len());
    let once = xor_bytes(pad, message);
    assert forall|i: int| 0 <= i < message.len() implies #[trigger] xor_bytes(pad, once)[i]
        == message[i] by {
        let p = pad[i];
        let m = message[i];
        assert(p ^ (p ^ m) == m) by (bit_vector);
    }
    assert(xor_bytes(pad, once) =~= message);
}

} // verus!
