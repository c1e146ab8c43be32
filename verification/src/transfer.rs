use vstd::prelude::*;

use crate::decimal::{
    all_digits, decimal, digits_value, is_digit, lemma_decimal_no_leading_zero, lemma_decimal_digits, lemma_parse_decimal_roundtrip,
    parse_unsigned, parse_unsigned_bounded, push_decimal,
};
use crate::fields::{
    bytes_eq, copy_bytes, free_of, join_fields, lemma_split_join, push_bytes, split_bytes,
    split_fields,
};

verus! {

/// The ASCII code of `/`, which parts the fields of the metadata message.
pub open spec fn slash() -> u8 {
    47u8
}

/// The tag `name` that comes before the file's name.
pub open spec fn name_tag() -> Seq<u8> {
    seq![110u8, 97u8, 109u8, 101u8]
}

/// The tag `size` that comes before the file's size.
pub open spec fn size_tag() -> Seq<u8> {
    seq![115u8, 105u8, 122u8, 101u8]
}

/// The metadata a sender announces a file with: `name/<file name>/size/<size>`.
pub open spec fn metadata_text(file_name: Seq<u8>, file_size: nat) -> Seq<u8> {
    join_fields(seq![name_tag(), file_name, size_tag(), decimal(file_size)], slash())
}

/// What a receiver reads from a metadata message: the fields parted by `/`
/// must be at least four, the first `name` and the third `size`, and the
/// fourth a number that fits in a `u64`; the second is the file's name.
pub open spec fn metadata_fields(message: Seq<u8>) -> Option<(Seq<u8>, u64)> {
    let f = split_fields(message, slash());
    if f.len() >= 4 && f[0] == name_tag() && f[2] == size_tag() && parse_unsigned(
        f[3],
        u64::MAX as nat,
    ) is Some {
        Some((f[1], parse_unsigned(f[3], u64::MAX as nat)->0 as u64))
    } else {
        None
    }
}

/// Writes the metadata message that announces a file of `file_size` bytes
/// named `file_name`.
pub fn encode_metadata(file_name: &[u8], file_size: u64) -> (r: Vec<u8>)
    ensures
        r@ == metadata_text(file_name@, file_size as nat),
{
    let mut out: Vec<u8> = Vec::new();
    out.push(110u8);
    out.push(97u8);
    out.push(109u8);
    out.push(101u8);
    out.push(47u8);
    push_bytes(&mut out, file_name);
    out.push(47u8);
    out.push(115u8);
    out.push(105u8);
    out.push(122u8);
    out.push(101u8);
    out.push(47u8);
    push_decimal(&mut out, file_size);
    proof {
        let parts = seq![name_tag(), file_name@, size_tag(), decimal(file_size as nat)];
        assert(parts.drop_last().drop_last().drop_last() =~= seq![name_tag()]);
        assert(parts.drop_last().drop_last() =~= seq![name_tag(), file_name@]);
        assert(parts.drop_last() =~= seq![name_tag(), file_name@, size_tag()]);
        assert(join_fields(seq![name_tag()], slash()) == name_tag());
        let j2 = name_tag() + seq![slash()] + file_name@;
        let j3 = j2 + seq![slash()] + size_tag();
        assert(join_fields(seq![name_tag(), file_name@], slash()) == j2);
        assert(join_fields(seq![name_tag(), file_name@, size_tag()], slash()) == j3);
        assert(join_fields(parts, slash()) == j3 + seq![slash()] + decimal(file_size as nat));
        assert(out@ =~= j3 + seq![slash()] + decimal(file_size as nat));
    }
    out
}

/// The announced file, as a receiver reads it from the metadata.
pub struct Metadata {
    pub file_name: Vec<u8>,
    pub file_size: u64,
}

/// Reads a metadata message; `None` when it is not one.
pub fn parse_metadata(message: &[u8]) -> (r: Option<Metadata>)
    ensures
        match metadata_fields(message@) {
            Some((file_name, file_size)) => r matches Some(m) && m.file_name@ == file_name
                && m.file_size == file_size,
            None => r is None,
        },
{
    let f = split_bytes(message, 47u8);
    if f.len() < 4 {
        return None;
    }
    assert(f.deep_view()[0] == f[0]@);
    assert(f.deep_view()[1] == f[1]@);
    assert(f.deep_view()[2] == f[2]@);
    assert(f.deep_view()[3] == f[3]@);
    let name_field: [u8; 4] = [110u8, 97u8, 109u8, 101u8];
    let size_field: [u8; 4] = [115u8, 105u8, 122u8, 101u8];
    assert(name_field@ =~= name_tag());
    assert(size_field@ =~= size_tag());
    if !bytes_eq(f[0].as_slice(), name_field.as_slice()) {
        return None;
    }
    if !bytes_eq(f[2].as_slice(), size_field.as_slice()) {
        return None;
    }
    match parse_unsigned_bounded(f[3].as_slice(), u64::MAX) {
        None => None,
        Some(size) => Some(Metadata { file_name: copy_bytes(f[1].as_slice()), file_size: size }),
    }
}

/// The acknowledgement `ACK_META` a receiver sends once it read the metadata.
pub open spec fn ack_text() -> Seq<u8> {
    seq![65u8, 67u8, 75u8, 95u8, 77u8, 69u8, 84u8, 65u8]
}

/// The acknowledgement a receiver sends once it read the metadata.
pub fn metadata_ack() -> (r: Vec<u8>)
    ensures
        r@ == ack_text(),
{
    let mut out: Vec<u8> = Vec::new();
    out.push(65u8);
    out.push(67u8);
    out.push(75u8);
    out.push(95u8);
    out.push(77u8);
    out.push(69u8);
    out.push(84u8);
    out.push(65u8);
    assert(out@ =~= ack_text());
    out
}

/// Whether a sender may start sending the file after reading `message`: only
/// the exact acknowledgement counts.
pub fn is_metadata_ack(message: &[u8]) -> (r: bool)
    ensures
        r == (message@ == ack_text()),
{
    let ack = metadata_ack();
    bytes_eq(message, ack.as_slice())
}

/// How far a receiver got with a file of `expected` bytes.
pub struct ReceiveProgress {
    pub expected: u64,
    pub received: u64,
}

impl ReceiveProgress {
    /// Starts receiving a file of `expected` bytes.
    pub fn new(expected: u64) -> (r: ReceiveProgress)
        ensures
            r.expected == expected,
            r.received == 0,
    {
        ReceiveProgress { expected, received: 0 }
    }

    /// Whether the file is complete: the bytes received add up to the
    /// announced size. A file of size 0 is complete before any chunk.
    pub fn is_complete(&self) -> (r: bool)
        ensures
            r == (self.received == self.expected),
    {
        self.received == self.expected
    }

    /// Counts a chunk of `chunk` bytes that was written to the file, and tells
    /// whether the file is then complete: exactly when the bytes received add
    /// up to the announced size. An empty read counts nothing.
    pub fn record(&mut self, chunk: usize) -> (done: bool)
        requires
            old(self).received + chunk <= u64::MAX,
        ensures
            final(self).expected == old(self).expected,
            final(self).received == old(self).received + chunk,
            done == (final(self).received == final(self).expected),
    {
        self.received = self.received + chunk as u64;
        self.received == self.expected
    }
}

/// A receiver reads back the metadata a sender writes, for any file name
/// without `/`.
pub proof fn law_metadata_roundtrip(file_name: Seq<u8>, file_size: u64)
    requires
        free_of(file_name, slash()),
    ensures
        metadata_fields(metadata_text(file_name, file_size as nat)) == Some((file_name, file_size)),
{
    let d = decimal(file_size as nat);
    lemma_decimal_digits(file_size as nat);
    assert forall|i: int| 0 <= i < d.len() implies #[trigger] d[i] != slash() by {
        assert(is_digit(d[i]));
    }
    let parts = seq![name_tag(), file_name, size_tag(), d];
    assert forall|i: int| 0 <= i < parts.len() implies free_of(#[trigger] parts[i], slash()) by {
        if i == 0 {
            assert(parts[i] == name_tag());
            assert forall|k: int| 0 <= k < name_tag().len() implies #[trigger] name_tag()[k]
                != slash() by {}
        } else if i == 1 {
            assert(parts[i] == file_name);
        } else if i == 2 {
            assert(parts[i] == size_tag());
            assert forall|k: int| 0 <= k < size_tag().len() implies #[trigger] size_tag()[k]
                != slash() by {}
        } else {
            assert(parts[i] == d);
        }
    }
    lemma_split_join(parts, slash());
    lemma_parse_decimal_roundtrip(file_size as nat, u64::MAX as nat);
}


/// The metadata fields built from a file name without `/` and a run of digits
/// are written as `name/<file name>/size/<digits>` and split back into the
/// same four fields.
proof fn lemma_metadata_parts(file_name: Seq<u8>, digits: Seq<u8>)
    requires
        free_of(file_name, 47u8),
        all_digits(digits),
    ensures
        join_fields(seq![name_tag(), file_name, size_tag(), digits], slash()) == seq![
            110u8,
            97u8,
            109u8,
            101u8,
            47u8,
        ] + file_name + seq![47u8, 115u8, 105u8, 122u8, 101u8, 47u8] + digits,
        split_fields(join_fields(seq![name_tag(), file_name, size_tag(), digits], slash()), slash())
            == seq![name_tag(), file_name, size_tag(), digits],
{
    let parts = seq![name_tag(), file_name, size_tag(), digits];
    assert forall|i: int| 0 <= i < digits.len() implies #[trigger] digits[i] != slash() by {
        assert(is_digit(digits[i]));
    }
    assert forall|i: int| 0 <= i < parts.len() implies free_of(#[trigger] parts[i], slash()) by {
        if i == 0 {
            assert(parts[i] == name_tag());
            assert forall|k: int| 0 <= k < name_tag().len() implies #[trigger] name_tag()[k]
                != slash() by {}
        } else if i == 1 {
            assert(parts[i] == file_name);
        } else if i == 2 {
            assert(parts[i] == size_tag());
            assert forall|k: int| 0 <= k < size_tag().len() implies #[trigger] size_tag()[k]
                != slash() by {}
        } else {
            assert(parts[i] == digits);
        }
    }
    lemma_split_join(parts, slash());
    assert(parts.drop_last().drop_last().drop_last() =~= seq![name_tag()]);
    assert(parts.drop_last().drop_last() =~= seq![name_tag(), file_name]);
    assert(parts.drop_last() =~= seq![name_tag(), file_name, size_tag()]);
    assert(join_fields(seq![name_tag()], slash()) == name_tag());
    let j2 = name_tag() + seq![slash()] + file_name;
    let j3 = j2 + seq![slash()] + size_tag();
    assert(join_fields(seq![name_tag(), file_name], slash()) == j2);
    assert(join_fields(seq![name_tag(), file_name, size_tag()], slash()) == j3);
    assert(join_fields(parts, slash()) == j3 + seq![slash()] + digits);
    assert(j3 + seq![slash()] + digits =~= seq![110u8, 97u8, 109u8, 101u8, 47u8] + file_name
        + seq![47u8, 115u8, 105u8, 122u8, 101u8, 47u8] + digits);
}

/// The metadata message a sender writes for a file name without `/` has
/// exactly four `/`-fields: the bytes `name`, the file name, the bytes `size`,
/// and the decimal digits of the size, without a leading zero unless the size
/// is 0.
pub proof fn law_metadata_layout(file_name: Seq<u8>, file_size: u64)
    requires
        free_of(file_name, 47u8),
    ensures
        ({
            let f = split_fields(metadata_text(file_name, file_size as nat), 47u8);
            &&& f.len() == 4
            &&& f[0] == seq![110u8, 97u8, 109u8, 101u8]
            &&& f[1] == file_name
            &&& f[2] == seq![115u8, 105u8, 122u8, 101u8]
            &&& f[3].len() > 0
            &&& all_digits(f[3])
            &&& digits_value(f[3]) == file_size
            &&& (f[3].len() == 1 || f[3][0] != 48u8)
        }),
{
    lemma_decimal_digits(file_size as nat);
    lemma_decimal_no_leading_zero(file_size as nat);
    let d = decimal(file_size as nat);
    lemma_metadata_parts(file_name, d);
    let f = split_fields(metadata_text(file_name, file_size as nat), 47u8);
    assert(f[3] == d);
    if file_size == 0 {
        assert(d.len() == 1);
    }
}

/// A receiver reads the message `name/<file name>/size/<digits>`, the file
/// name without `/` and the digits spelling at most `u64::MAX`, as that file
/// name and the number the digits spell.
pub proof fn law_metadata_reading(file_name: Seq<u8>, digits: Seq<u8>)
    requires
        free_of(file_name, 47u8),
        digits.len() > 0,
        all_digits(digits),
        digits_value(digits) <= u64::MAX,
    ensures
        metadata_fields(
            seq![110u8, 97u8, 109u8, 101u8, 47u8] + file_name + seq![
                47u8,
                115u8,
                105u8,
                122u8,
                101u8,
                47u8,
            ] + digits,
        ) == Some((file_name, digits_value(digits) as u64)),
{
    lemma_metadata_parts(file_name, digits);
    assert(digits[0] != 43u8) by {
        assert(is_digit(digits[0]));
    }
    assert(crate::decimal::unsigned_digits(digits) == digits);
}

} // verus!
