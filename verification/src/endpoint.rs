use vstd::prelude::*;

use crate::decimal::{decimal, is_digit, lemma_decimal_digits, push_decimal};
use crate::fields::{free_of, join_fields, lemma_split_join, push_bytes, split_fields};

verus! {

/// The ASCII code of `:`, which parts an address from its port.
pub open spec fn colon() -> u8 {
    58u8
}

/// The text `address:port` that names an endpoint, the port in decimal.
pub open spec fn endpoint_text(address: Seq<u8>, port: nat) -> Seq<u8> {
    address + seq![colon()] + decimal(port)
}

/// Writes the endpoint `address:port`, as `format!("{}:{}", address, port)`.
pub fn encode_endpoint(address: &[u8], port: u16) -> (r: Vec<u8>)
    ensures
        r@ == endpoint_text(address@, port as nat),
{
    let mut out: Vec<u8> = Vec::new();
    push_bytes(&mut out, address);
    out.push(58u8);
    push_decimal(&mut out, port as u64);
    proof {
        assert(out@ =~= endpoint_text(address@, port as nat));
    }
    out
}


/// An endpoint whose address holds no `:` splits at `:` into its address and
/// the decimal port.
pub proof fn lemma_endpoint_fields(address: Seq<u8>, port: nat)
    requires
        free_of(address, colon()),
    ensures
        split_fields(endpoint_text(address, port), colon()) == seq![address, decimal(port)],
{
    lemma_decimal_digits(port);
    let d = decimal(port);
    assert forall|i: int| 0 <= i < d.len() implies #[trigger] d[i] != colon() by {
        assert(is_digit(d[i]));
    }
    let parts = seq![address, d];
    assert forall|i: int| 0 <= i < parts.len() implies free_of(#[trigger] parts[i], colon()) by {
        if i == 1 {
            assert(parts[i] == d);
        }
    }
    lemma_split_join(parts, colon());
    assert(parts.drop_last() =~= seq![address]);
    assert(join_fields(seq![address], colon()) == address);
    assert(parts.last() == d);
    assert(join_fields(parts, colon()) =~= endpoint_text(address, port));
}

/// An endpoint holds a byte `sep` that is neither a digit nor `:` only where
/// its address does.
pub proof fn lemma_endpoint_free_of(address: Seq<u8>, port: nat, sep: u8)
    requires
        free_of(address, sep),
        !is_digit(sep),
        sep != colon(),
    ensures
        free_of(endpoint_text(address, port), sep),
{
    lemma_decimal_digits(port);
    let e = endpoint_text(address, port);
    assert forall|i: int| 0 <= i < e.len() implies #[trigger] e[i] != sep by {
        if i < address.len() {
            assert(e[i] == address[i]);
        } else if i == address.len() {
            assert(e[i] == colon());
        } else {
            assert(e[i] == decimal(port)[i - address.len() - 1]);
            assert(is_digit(decimal(port)[i - address.len() - 1]));
        }
    }
}

} // verus!
