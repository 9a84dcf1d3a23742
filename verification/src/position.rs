//! Ring positions: where node replicas and keys land on the keyspace.

use vstd::prelude::*;
use vstd::slice::slice_to_vec;
use vstd::utf8::encode_utf8;

verus! {

/// The MD5 digest of a byte string.
pub uninterp spec fn md5_digest(data: Seq<u8>) -> Seq<u8>;

/// Hashes `data` with `md5::compute`.
///
/// Trusted: the bytes returned are the MD5 digest of `data`, a function of
/// `data` alone.
#[verifier::external_body]
fn md5_of(data: &[u8]) -> (digest: Vec<u8>)
    ensures
        digest@ == md5_digest(data@),
{
    md5::compute(data).to_vec()
}

/// The decimal numeral of `n` in ASCII, without leading zeros.
pub open spec fn decimal_digits(n: nat) -> Seq<u8>
    decreases n,
{
    if n < 10 {
        seq![(48 + n) as u8]
    } else {
        decimal_digits(n / 10).push((48 + n % 10) as u8)
    }
}

/// The byte string hashed for replica `replica` of the node called `name`:
/// the bare name for replica 0, and the name, a hyphen and the replica's
/// decimal index for the others.
pub open spec fn replica_identifier(name: Seq<char>, replica: nat) -> Seq<u8> {
    if replica == 0 {
        encode_utf8(name)
    } else {
        encode_utf8(name) + seq![45u8] + decimal_digits(replica)
    }
}

/// The ring position of replica `replica` of the node called `name`.
pub open spec fn replica_position(name: Seq<char>, replica: nat) -> Seq<u8> {
    md5_digest(replica_identifier(name, replica))
}

/// The ring position a key hashes to.
pub open spec fn key_position(key: Seq<char>) -> Seq<u8> {
    md5_digest(encode_utf8(key))
}

/// Appends the decimal numeral of `n` to `out`.
pub fn push_decimal(out: &mut Vec<u8>, n: u32)
    ensures
        final(out)@ == old(out)@ + decimal_digits(n as nat),
{
    let mut digits: Vec<u8> = Vec::new();
    let mut rest: u32 = n / 10;
    digits.push(48u8 + (n % 10) as u8);
    while rest > 0
        invariant
            decimal_digits(n as nat) == if rest > 0 {
                decimal_digits(rest as nat) + digits@
            } else {
                digits@
            },
        decreases rest,
    {
        digits.insert(0, 48u8 + (rest % 10) as u8);
        rest = rest / 10;
    }
    out.append(&mut digits);
}

/// Writes out the identifier of one replica of a node.
pub fn identifier_bytes(name: &String, replica: u32) -> (bytes: Vec<u8>)
    ensures
        bytes@ == replica_identifier(name@, replica as nat),
{
    let mut bytes = slice_to_vec(name.as_str().as_bytes());
    if replica != 0 {
        bytes.push(45u8);
        push_decimal(&mut bytes, replica);
    }
    bytes
}

/// Computes the ring position of one replica of a node.
pub fn position_of_replica(name: &String, replica: u32) -> (position: Vec<u8>)
    ensures
        position@ == replica_position(name@, replica as nat),
{
    let bytes = identifier_bytes(name, replica);
    md5_of(bytes.as_slice())
}

/// Computes the ring position of a key.
pub fn position_of_key(key: &String) -> (position: Vec<u8>)
    ensures
        position@ == key_position(key@),
{
    md5_of(key.as_str().as_bytes())
}

} // verus!
