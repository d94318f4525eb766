//! Byte layout of rollup operations inside a block's payload.
//!
//! Each operation is a tag byte followed by fixed-width big-endian
//! fields; a payload is the plain concatenation of its operations. The
//! decoder consumes the payload strictly left to right and must consume
//! every byte: trailing or missing bytes are a decode error, never a
//! warning, because a misaligned decode would corrupt all later state.

use vstd::prelude::*;
use crate::ops::RollupOp;

verus! {

/// Why a payload failed to decode.
#[derive(Clone, Copy, Debug, PartialEq, Eq, Structural)]
pub enum DecodeError {
    /// A tag byte matches no known operation layout.
    BadTag,
    /// The payload ends before the current operation's last field.
    Truncated,
}

/// `256^n`.
pub open spec fn pow256(n: nat) -> int
    decreases n,
{
    if n == 0 {
        1
    } else {
        256 * pow256((n - 1) as nat)
    }
}

/// `pow256` grows monotonically.
pub proof fn lemma_pow256_monotone(a: nat, b: nat)
    requires
        a <= b,
    ensures
        pow256(a) <= pow256(b),
    decreases b,
{
    if a < b {
        lemma_pow256_monotone(a, (b - 1) as nat);
        lemma_pow256_positive((b - 1) as nat);
    }
}

/// `pow256` is positive.
pub proof fn lemma_pow256_positive(n: nat)
    ensures
        pow256(n) >= 1,
    decreases n,
{
    if n > 0 {
        lemma_pow256_positive((n - 1) as nat);
    }
}

/// `256^8` as a literal: one past the largest `u64`.
pub proof fn lemma_pow256_u64()
    ensures
        pow256(8) == 0x1_0000_0000_0000_0000,
        pow256(4) == 0x1_0000_0000,
        pow256(2) == 0x1_0000,
{
    reveal_with_fuel(pow256, 9);
}

/// The `n` big-endian bytes of `x`; the last byte is the least
/// significant.
pub open spec fn be_bytes(x: int, n: nat) -> Seq<u8>
    decreases n,
{
    if n == 0 {
        Seq::empty()
    } else {
        be_bytes(x / 256, (n - 1) as nat).push((x % 256) as u8)
    }
}

/// The unsigned value of a big-endian byte string.
pub open spec fn be_value(s: Seq<u8>) -> int
    decreases s.len(),
{
    if s.len() == 0 {
        0
    } else {
        be_value(s.drop_last()) * 256 + s.last()
    }
}

/// `be_bytes` always yields exactly `n` bytes.
pub proof fn lemma_be_bytes_len(x: int, n: nat)
    ensures
        be_bytes(x, n).len() == n,
    decreases n,
{
    if n > 0 {
        lemma_be_bytes_len(x / 256, (n - 1) as nat);
    }
}

/// A byte string's value is bounded by `256^len`.
pub proof fn lemma_be_value_bound(s: Seq<u8>)
    ensures
        0 <= be_value(s) < pow256(s.len()),
    decreases s.len(),
{
    if s.len() > 0 {
        lemma_be_value_bound(s.drop_last());
    }
}

/// Writing then reading `n` bytes gives the value back.
pub proof fn lemma_be_round_trip(x: int, n: nat)
    requires
        0 <= x < pow256(n),
    ensures
        be_value(be_bytes(x, n)) == x,
    decreases n,
{
    if n > 0 {
        lemma_be_bytes_len(x / 256, (n - 1) as nat);
        assert(be_bytes(x, n).drop_last() =~= be_bytes(x / 256, (n - 1) as nat));
        assert(x / 256 < pow256((n - 1) as nat)) by {
            lemma_pow256_positive((n - 1) as nat);
        }
        lemma_be_round_trip(x / 256, (n - 1) as nat);
    }
}

/// Reads the big-endian value of `s[off .. off + n]`.
pub fn read_be(s: &Vec<u8>, off: usize, n: usize) -> (r: u64)
    requires
        n <= 8,
        off + n <= s@.len(),
    ensures
        r as int == be_value(s@.subrange(off as int, off as int + n as int)),
{
    proof {
        lemma_pow256_u64();
    }
    let slen = s.len();
    let mut v: u64 = 0;
    let mut i: usize = 0;
    while i < n
        invariant
            i <= n <= 8,
            slen == s@.len(),
            off + n <= slen,
            v as int == be_value(s@.subrange(off as int, off as int + i as int)),
            (v as int) < pow256(i as nat),
            pow256(8) == 0x1_0000_0000_0000_0000,
        decreases n - i,
    {
        proof {
            lemma_pow256_monotone(i as nat, 7);
            assert(pow256(8) == 256 * pow256(7));
            assert((v as int) * 256 <= (pow256(7) - 1) * 256);
            let t = s@.subrange(off as int, off as int + i as int + 1);
            assert(t.drop_last() =~= s@.subrange(off as int, off as int + i as int));
            assert(t.last() == s@[off as int + i as int]);
        }
        let b = s[off + i];
        v = v * 256 + (b as u64);
        i = i + 1;
    }
    v
}

/// Appends the `n` big-endian bytes of `x`.
pub fn write_be(out: &mut Vec<u8>, x: u64, n: usize)
    requires
        n <= 8,
        (x as int) < pow256(n as nat),
    ensures
        final(out)@ == old(out)@ + be_bytes(x as int, n as nat),
{
    let mut tmp: Vec<u8> = Vec::new();
    let mut v: u64 = x;
    let mut i: usize = 0;
    while i < n
        invariant
            i <= n <= 8,
            tmp@.len() == i,
            v as int == (x as int) / pow256(i as nat),
            forall|j: int| 0 <= j < i ==> tmp@[j] == ((x as int) / pow256(j as nat)) % 256,
        decreases n - i,
    {
        tmp.push((v % 256) as u8);
        proof {
            lemma_pow256_positive(i as nat);
            vstd::arithmetic::div_mod::lemma_div_denominator(
                x as int,
                pow256(i as nat),
                256,
            );
            assert(pow256((i + 1) as nat) == 256 * pow256(i as nat));
        }
        v = v / 256;
        i = i + 1;
    }
    proof {
        lemma_be_bytes_len(x as int, n as nat);
    }
    let mut k: usize = n;
    while k > 0
        invariant
            k <= n <= 8,
            tmp@.len() == n,
            forall|j: int| 0 <= j < n ==> tmp@[j] == ((x as int) / pow256(j as nat)) % 256,
            out@ =~= old(out)@ + be_bytes(x as int, n as nat).take(n - k),
        decreases k,
    {
        proof {
            lemma_be_bytes_spread(x as int, n as nat);
        }
        k = k - 1;
        out.push(tmp[k]);
        proof {
            let bs = be_bytes(x as int, n as nat);
            assert(tmp@[k as int] == bs[n - 1 - k]);
            assert(out@ =~= old(out)@ + bs.take(n - k));
        }
    }
    proof {
        lemma_be_bytes_len(x as int, n as nat);
        assert(be_bytes(x as int, n as nat).take(n as int) =~= be_bytes(x as int, n as nat));
    }
}

/// Byte `j` of `be_bytes(x, n)` is digit `n - 1 - j` of `x` in base 256.
pub proof fn lemma_be_bytes_spread(x: int, n: nat)
    requires
        x >= 0,
    ensures
        be_bytes(x, n).len() == n,
        forall|j: int|
            0 <= j < n ==> be_bytes(x, n)[j] == ((x / pow256((n - 1 - j) as nat)) % 256) as u8,
    decreases n,
{
    lemma_be_bytes_len(x, n);
    if n > 0 {
        lemma_be_bytes_spread(x / 256, (n - 1) as nat);
        assert forall|j: int| 0 <= j < n implies be_bytes(x, n)[j] == ((x / pow256(
            (n - 1 - j) as nat,
        )) % 256) as u8 by {
            if j == n - 1 {
                assert(pow256(0) == 1);
            } else {
                assert(be_bytes(x, n)[j] == be_bytes(x / 256, (n - 1) as nat)[j]);
                lemma_pow256_positive((n - 2 - j) as nat);
                vstd::arithmetic::div_mod::lemma_div_denominator(
                    x,
                    256,
                    pow256((n - 2 - j) as nat),
                );
                assert(pow256((n - 1 - j) as nat) == 256 * pow256((n - 2 - j) as nat));
            }
        }
    }
}

/// Encoded size, in bytes, of an operation with the given tag byte.
pub open spec fn tag_size(tag: u8) -> nat {
    if tag == 0 {
        1
    } else if tag == 1 {
        15
    } else if tag == 2 {
        23
    } else if tag == 3 {
        19
    } else if tag == 4 {
        7
    } else if tag == 5 {
        13
    } else {
        13
    }
}

/// The byte string of one operation: tag byte, then fixed-width
/// big-endian fields.
pub open spec fn encode_op(op: RollupOp) -> Seq<u8> {
    match op {
        RollupOp::NoOp => seq![0u8],
        RollupOp::Deposit { account, token, amount } => seq![1u8] + be_bytes(account as int, 4)
            + be_bytes(token as int, 2) + be_bytes(amount as int, 8),
        RollupOp::Transfer { from, to, token, amount, nonce } => seq![2u8] + be_bytes(
            from as int,
            4,
        ) + be_bytes(to as int, 4) + be_bytes(token as int, 2) + be_bytes(amount as int, 8)
            + be_bytes(nonce as int, 4),
        RollupOp::Withdraw { account, token, amount, nonce } => seq![3u8] + be_bytes(
            account as int,
            4,
        ) + be_bytes(token as int, 2) + be_bytes(amount as int, 8) + be_bytes(nonce as int, 4),
        RollupOp::FullExit { account, token } => seq![4u8] + be_bytes(account as int, 4)
            + be_bytes(token as int, 2),
        RollupOp::ChangePubKey { account, new_pub_key_hash } => seq![5u8] + be_bytes(
            account as int,
            4,
        ) + be_bytes(new_pub_key_hash as int, 8),
        RollupOp::CreateAccount { account, address } => seq![6u8] + be_bytes(account as int, 4)
            + be_bytes(address as int, 8),
    }
}

/// The byte string of an ordered operation sequence: plain
/// concatenation, nothing between operations.
pub open spec fn encode_ops(ops: Seq<RollupOp>) -> Seq<u8>
    decreases ops.len(),
{
    if ops.len() == 0 {
        Seq::empty()
    } else {
        encode_op(ops[0]) + encode_ops(ops.skip(1))
    }
}

/// The operation at the head of `s`.
pub open spec fn decode_head(s: Seq<u8>) -> RollupOp
    recommends
        s.len() >= 1,
        s[0] <= 6,
        s.len() >= tag_size(s[0]),
{
    let tag = s[0];
    if tag == 0 {
        RollupOp::NoOp
    } else if tag == 1 {
        RollupOp::Deposit {
            account: be_value(s.subrange(1, 5)) as u32,
            token: be_value(s.subrange(5, 7)) as u16,
            amount: be_value(s.subrange(7, 15)) as u64,
        }
    } else if tag == 2 {
        RollupOp::Transfer {
            from: be_value(s.subrange(1, 5)) as u32,
            to: be_value(s.subrange(5, 9)) as u32,
            token: be_value(s.subrange(9, 11)) as u16,
            amount: be_value(s.subrange(11, 19)) as u64,
            nonce: be_value(s.subrange(19, 23)) as u32,
        }
    } else if tag == 3 {
        RollupOp::Withdraw {
            account: be_value(s.subrange(1, 5)) as u32,
            token: be_value(s.subrange(5, 7)) as u16,
            amount: be_value(s.subrange(7, 15)) as u64,
            nonce: be_value(s.subrange(15, 19)) as u32,
        }
    } else if tag == 4 {
        RollupOp::FullExit {
            account: be_value(s.subrange(1, 5)) as u32,
            token: be_value(s.subrange(5, 7)) as u16,
        }
    } else if tag == 5 {
        RollupOp::ChangePubKey {
            account: be_value(s.subrange(1, 5)) as u32,
            new_pub_key_hash: be_value(s.subrange(5, 13)) as u64,
        }
    } else {
        RollupOp::CreateAccount {
            account: be_value(s.subrange(1, 5)) as u32,
            address: be_value(s.subrange(5, 13)) as u64,
        }
    }
}

/// What a payload means: the ordered operations it concatenates, or the
/// exact error when a tag is unknown or the last operation is cut short.
pub open spec fn decode_payload(s: Seq<u8>) -> Result<Seq<RollupOp>, DecodeError>
    decreases s.len(),
{
    if s.len() == 0 {
        Ok(Seq::empty())
    } else if s[0] > 6 {
        Err(DecodeError::BadTag)
    } else if s.len() < tag_size(s[0]) {
        Err(DecodeError::Truncated)
    } else {
        match decode_payload(s.skip(tag_size(s[0]) as int)) {
            Ok(rest) => Ok(seq![decode_head(s)] + rest),
            Err(e) => Err(e),
        }
    }
}

/// Decoding an encoded operation at the head of any payload yields that
/// operation back and continues with the remainder.
pub proof fn lemma_decode_one(op: RollupOp, rest: Seq<u8>)
    ensures
        decode_payload(encode_op(op) + rest) == match decode_payload(rest) {
            Ok(r) => Ok::<Seq<RollupOp>, DecodeError>(seq![op] + r),
            Err(e) => Err::<Seq<RollupOp>, DecodeError>(e),
        },
{
    let e = encode_op(op) + rest;
    lemma_pow256_u64();
    match op {
        RollupOp::NoOp => {
            assert(e[0] == 0);
            assert(e.skip(1) =~= rest);
            assert(decode_head(e) == op);
        },
        RollupOp::Deposit { account, token, amount } => {
            lemma_be_bytes_len(account as int, 4);
            lemma_be_bytes_len(token as int, 2);
            lemma_be_bytes_len(amount as int, 8);
            assert(e[0] == 1);
            assert(e.subrange(1, 5) =~= be_bytes(account as int, 4));
            assert(e.subrange(5, 7) =~= be_bytes(token as int, 2));
            assert(e.subrange(7, 15) =~= be_bytes(amount as int, 8));
            lemma_be_round_trip(account as int, 4);
            lemma_be_round_trip(token as int, 2);
            lemma_be_round_trip(amount as int, 8);
            assert(decode_head(e) == op);
            assert(e.skip(15) =~= rest);
        },
        RollupOp::Transfer { from, to, token, amount, nonce } => {
            lemma_be_bytes_len(from as int, 4);
            lemma_be_bytes_len(to as int, 4);
            lemma_be_bytes_len(token as int, 2);
            lemma_be_bytes_len(amount as int, 8);
            lemma_be_bytes_len(nonce as int, 4);
            assert(e[0] == 2);
            assert(e.subrange(1, 5) =~= be_bytes(from as int, 4));
            assert(e.subrange(5, 9) =~= be_bytes(to as int, 4));
            assert(e.subrange(9, 11) =~= be_bytes(token as int, 2));
            assert(e.subrange(11, 19) =~= be_bytes(amount as int, 8));
            assert(e.subrange(19, 23) =~= be_bytes(nonce as int, 4));
            lemma_be_round_trip(from as int, 4);
            lemma_be_round_trip(to as int, 4);
            lemma_be_round_trip(token as int, 2);
            lemma_be_round_trip(amount as int, 8);
            lemma_be_round_trip(nonce as int, 4);
            assert(decode_head(e) == op);
            assert(e.skip(23) =~= rest);
        },
        RollupOp::Withdraw { account, token, amount, nonce } => {
            lemma_be_bytes_len(account as int, 4);
            lemma_be_bytes_len(token as int, 2);
            lemma_be_bytes_len(amount as int, 8);
            lemma_be_bytes_len(nonce as int, 4);
            assert(e[0] == 3);
            assert(e.subrange(1, 5) =~= be_bytes(account as int, 4));
            assert(e.subrange(5, 7) =~= be_bytes(token as int, 2));
            assert(e.subrange(7, 15) =~= be_bytes(amount as int, 8));
            assert(e.subrange(15, 19) =~= be_bytes(nonce as int, 4));
            lemma_be_round_trip(account as int, 4);
            lemma_be_round_trip(token as int, 2);
            lemma_be_round_trip(amount as int, 8);
            lemma_be_round_trip(nonce as int, 4);
            assert(decode_head(e) == op);
            assert(e.skip(19) =~= rest);
        },
        RollupOp::FullExit { account, token } => {
            lemma_be_bytes_len(account as int, 4);
            lemma_be_bytes_len(token as int, 2);
            assert(e[0] == 4);
            assert(e.subrange(1, 5) =~= be_bytes(account as int, 4));
            assert(e.subrange(5, 7) =~= be_bytes(token as int, 2));
            lemma_be_round_trip(account as int, 4);
            lemma_be_round_trip(token as int, 2);
            assert(decode_head(e) == op);
            assert(e.skip(7) =~= rest);
        },
        RollupOp::ChangePubKey { account, new_pub_key_hash } => {
            lemma_be_bytes_len(account as int, 4);
            lemma_be_bytes_len(new_pub_key_hash as int, 8);
            assert(e[0] == 5);
            assert(e.subrange(1, 5) =~= be_bytes(account as int, 4));
            assert(e.subrange(5, 13) =~= be_bytes(new_pub_key_hash as int, 8));
            lemma_be_round_trip(account as int, 4);
            lemma_be_round_trip(new_pub_key_hash as int, 8);
            assert(decode_head(e) == op);
            assert(e.skip(13) =~= rest);
        },
        RollupOp::CreateAccount { account, address } => {
            lemma_be_bytes_len(account as int, 4);
            lemma_be_bytes_len(address as int, 8);
            assert(e[0] == 6);
            assert(e.subrange(1, 5) =~= be_bytes(account as int, 4));
            assert(e.subrange(5, 13) =~= be_bytes(address as int, 8));
            lemma_be_round_trip(account as int, 4);
            lemma_be_round_trip(address as int, 8);
            assert(decode_head(e) == op);
            assert(e.skip(13) =~= rest);
        },
    }
}

/// Decoding is a full inverse of encoding: every operation sequence
/// comes back from its own payload.
pub proof fn lemma_payload_round_trip(ops: Seq<RollupOp>)
    ensures
        decode_payload(encode_ops(ops)) == Ok::<Seq<RollupOp>, DecodeError>(ops),
    decreases ops.len(),
{
    if ops.len() == 0 {
        assert(ops =~= Seq::<RollupOp>::empty());
        assert(encode_ops(ops) =~= Seq::<u8>::empty());
    } else {
        lemma_payload_round_trip(ops.skip(1));
        lemma_decode_one(ops[0], encode_ops(ops.skip(1)));
        assert(encode_ops(ops) == encode_op(ops[0]) + encode_ops(ops.skip(1)));
        assert(seq![ops[0]] + ops.skip(1) =~= ops);
    }
}

/// `encode_ops` distributes over appending one operation.
pub proof fn lemma_encode_ops_snoc(ops: Seq<RollupOp>, op: RollupOp)
    ensures
        encode_ops(ops.push(op)) == encode_ops(ops) + encode_op(op),
    decreases ops.len(),
{
    if ops.len() == 0 {
        assert(ops.push(op)[0] == op);
        assert(ops.push(op).skip(1) =~= Seq::<RollupOp>::empty());
        assert(encode_ops(ops.push(op).skip(1)) == Seq::<u8>::empty());
        assert(encode_ops(ops.push(op)) == encode_op(op) + Seq::<u8>::empty());
        assert(encode_ops(ops) == Seq::<u8>::empty());
        assert(encode_op(op) + Seq::<u8>::empty() =~= Seq::<u8>::empty() + encode_op(op));
    } else {
        assert(ops.push(op)[0] == ops[0]);
        assert(ops.push(op).skip(1) =~= ops.skip(1).push(op));
        lemma_encode_ops_snoc(ops.skip(1), op);
        assert(encode_ops(ops.push(op)) == encode_op(ops[0]) + encode_ops(ops.skip(1).push(op)));
        assert(encode_ops(ops.push(op)) =~= encode_ops(ops) + encode_op(op));
    }
}

/// Appends the encoding of one operation.
fn encode_op_into(out: &mut Vec<u8>, op: &RollupOp)
    ensures
        final(out)@ == old(out)@ + encode_op(*op),
{
    proof {
        lemma_pow256_u64();
    }
    match *op {
        RollupOp::NoOp => {
            out.push(0);
            assert(out@ =~= old(out)@ + encode_op(*op));
        },
        RollupOp::Deposit { account, token, amount } => {
            out.push(1);
            write_be(out, account as u64, 4);
            write_be(out, token as u64, 2);
            write_be(out, amount, 8);
            assert(out@ =~= old(out)@ + encode_op(*op));
        },
        RollupOp::Transfer { from, to, token, amount, nonce } => {
            out.push(2);
            write_be(out, from as u64, 4);
            write_be(out, to as u64, 4);
            write_be(out, token as u64, 2);
            write_be(out, amount, 8);
            write_be(out, nonce as u64, 4);
            assert(out@ =~= old(out)@ + encode_op(*op));
        },
        RollupOp::Withdraw { account, token, amount, nonce } => {
            out.push(3);
            write_be(out, account as u64, 4);
            write_be(out, token as u64, 2);
            write_be(out, amount, 8);
            write_be(out, nonce as u64, 4);
            assert(out@ =~= old(out)@ + encode_op(*op));
        },
        RollupOp::FullExit { account, token } => {
            out.push(4);
            write_be(out, account as u64, 4);
            write_be(out, token as u64, 2);
            assert(out@ =~= old(out)@ + encode_op(*op));
        },
        RollupOp::ChangePubKey { account, new_pub_key_hash } => {
            out.push(5);
            write_be(out, account as u64, 4);
            write_be(out, new_pub_key_hash, 8);
            assert(out@ =~= old(out)@ + encode_op(*op));
        },
        RollupOp::CreateAccount { account, address } => {
            out.push(6);
            write_be(out, account as u64, 4);
            write_be(out, address, 8);
            assert(out@ =~= old(out)@ + encode_op(*op));
        },
    }
}

/// Encodes an ordered operation sequence into one payload.
pub fn encode(ops: &Vec<RollupOp>) -> (out: Vec<u8>)
    ensures
        out@ == encode_ops(ops@),
{
    let mut out: Vec<u8> = Vec::new();
    let mut i: usize = 0;
    while i < ops.len()
        invariant
            i <= ops@.len(),
            out@ == encode_ops(ops@.take(i as int)),
        decreases ops@.len() - i,
    {
        encode_op_into(&mut out, &ops[i]);
        proof {
            assert(ops@.take(i + 1) =~= ops@.take(i as int).push(ops@[i as int]));
            lemma_encode_ops_snoc(ops@.take(i as int), ops@[i as int]);
        }
        i = i + 1;
    }
    proof {
        assert(ops@.take(ops@.len() as int) =~= ops@);
    }
    out
}

/// Decodes a payload into its ordered operations, consuming every byte;
/// a leftover or missing byte is the exact error `decode_payload` gives.
pub fn decode(payload: &Vec<u8>) -> (r: Result<Vec<RollupOp>, DecodeError>)
    ensures
        match r {
            Ok(v) => decode_payload(payload@) == Ok::<Seq<RollupOp>, DecodeError>(v@),
            Err(e) => decode_payload(payload@) == Err::<Seq<RollupOp>, DecodeError>(e),
        },
{
    proof {
        lemma_pow256_u64();
        assert(payload@.skip(0) =~= payload@);
    }
    let len = payload.len();
    let mut ops: Vec<RollupOp> = Vec::new();
    let mut i: usize = 0;
    while i < len
        invariant
            i <= len,
            len == payload@.len(),
            pow256(8) == 0x1_0000_0000_0000_0000,
            pow256(4) == 0x1_0000_0000,
            pow256(2) == 0x1_0000,
            match decode_payload(payload@.skip(i as int)) {
                Ok(rest) => decode_payload(payload@) == Ok::<Seq<RollupOp>, DecodeError>(
                    ops@ + rest,
                ),
                Err(e2) => decode_payload(payload@) == Err::<Seq<RollupOp>, DecodeError>(e2),
            },
        decreases len - i,
    {
        let ghost suffix = payload@.skip(i as int);
        let tag = payload[i];
        proof {
            assert(suffix[0] == tag);
        }
        if tag > 6 {
            return Err(DecodeError::BadTag);
        }
        let size: usize = if tag == 0 {
            1
        } else if tag == 1 {
            15
        } else if tag == 2 {
            23
        } else if tag == 3 {
            19
        } else if tag == 4 {
            7
        } else if tag == 5 {
            13
        } else {
            13
        };
        proof {
            assert(size == tag_size(tag));
        }
        if len - i < size {
            return Err(DecodeError::Truncated);
        }
        let op: RollupOp = if tag == 0 {
            RollupOp::NoOp
        } else if tag == 1 {
            proof {
                assert(suffix.subrange(1, 5) =~= payload@.subrange(i + 1, i + 5));
                assert(suffix.subrange(5, 7) =~= payload@.subrange(i + 5, i + 7));
                assert(suffix.subrange(7, 15) =~= payload@.subrange(i + 7, i + 15));
                lemma_be_value_bound(suffix.subrange(1, 5));
                lemma_be_value_bound(suffix.subrange(5, 7));
                lemma_be_value_bound(suffix.subrange(7, 15));
            }
            RollupOp::Deposit {
                account: read_be(payload, i + 1, 4) as u32,
                token: read_be(payload, i + 5, 2) as u16,
                amount: read_be(payload, i + 7, 8),
            }
        } else if tag == 2 {
            proof {
                assert(suffix.subrange(1, 5) =~= payload@.subrange(i + 1, i + 5));
                assert(suffix.subrange(5, 9) =~= payload@.subrange(i + 5, i + 9));
                assert(suffix.subrange(9, 11) =~= payload@.subrange(i + 9, i + 11));
                assert(suffix.subrange(11, 19) =~= payload@.subrange(i + 11, i + 19));
                assert(suffix.subrange(19, 23) =~= payload@.subrange(i + 19, i + 23));
                lemma_be_value_bound(suffix.subrange(1, 5));
                lemma_be_value_bound(suffix.subrange(5, 9));
                lemma_be_value_bound(suffix.subrange(9, 11));
                lemma_be_value_bound(suffix.subrange(11, 19));
                lemma_be_value_bound(suffix.subrange(19, 23));
            }
            RollupOp::Transfer {
                from: read_be(payload, i + 1, 4) as u32,
                to: read_be(payload, i + 5, 4) as u32,
                token: read_be(payload, i + 9, 2) as u16,
                amount: read_be(payload, i + 11, 8),
                nonce: read_be(payload, i + 19, 4) as u32,
            }
        } else if tag == 3 {
            proof {
                assert(suffix.subrange(1, 5) =~= payload@.subrange(i + 1, i + 5));
                assert(suffix.subrange(5, 7) =~= payload@.subrange(i + 5, i + 7));
                assert(suffix.subrange(7, 15) =~= payload@.subrange(i + 7, i + 15));
                assert(suffix.subrange(15, 19) =~= payload@.subrange(i + 15, i + 19));
                lemma_be_value_bound(suffix.subrange(1, 5));
                lemma_be_value_bound(suffix.subrange(5, 7));
                lemma_be_value_bound(suffix.subrange(7, 15));
                lemma_be_value_bound(suffix.subrange(15, 19));
            }
            RollupOp::Withdraw {
                account: read_be(payload, i + 1, 4) as u32,
                token: read_be(payload, i + 5, 2) as u16,
                amount: read_be(payload, i + 7, 8),
                nonce: read_be(payload, i + 15, 4) as u32,
            }
        } else if tag == 4 {
            proof {
                assert(suffix.subrange(1, 5) =~= payload@.subrange(i + 1, i + 5));
                assert(suffix.subrange(5, 7) =~= payload@.subrange(i + 5, i + 7));
                lemma_be_value_bound(suffix.subrange(1, 5));
                lemma_be_value_bound(suffix.subrange(5, 7));
            }
            RollupOp::FullExit {
                account: read_be(payload, i + 1, 4) as u32,
                token: read_be(payload, i + 5, 2) as u16,
            }
        } else if tag == 5 {
            proof {
                assert(suffix.subrange(1, 5) =~= payload@.subrange(i + 1, i + 5));
                assert(suffix.subrange(5, 13) =~= payload@.subrange(i + 5, i + 13));
                lemma_be_value_bound(suffix.subrange(1, 5));
                lemma_be_value_bound(suffix.subrange(5, 13));
            }
            RollupOp::ChangePubKey {
                account: read_be(payload, i + 1, 4) as u32,
                new_pub_key_hash: read_be(payload, i + 5, 8),
            }
        } else {
            proof {
                assert(suffix.subrange(1, 5) =~= payload@.subrange(i + 1, i + 5));
                assert(suffix.subrange(5, 13) =~= payload@.subrange(i + 5, i + 13));
                lemma_be_value_bound(suffix.subrange(1, 5));
                lemma_be_value_bound(suffix.subrange(5, 13));
            }
            RollupOp::CreateAccount {
                account: read_be(payload, i + 1, 4) as u32,
                address: read_be(payload, i + 5, 8),
            }
        };
        proof {
            assert(op == decode_head(suffix));
            assert(payload@.skip(i + size) =~= suffix.skip(size as int));
        }
        let ghost ops_before = ops@;
        ops.push(op);
        i = i + size;
        proof {
            match decode_payload(payload@.skip(i as int)) {
                Ok(rest) => {
                    assert(decode_payload(suffix) == Ok::<Seq<RollupOp>, DecodeError>(
                        seq![op] + rest,
                    ));
                    assert(ops_before + (seq![op] + rest) =~= ops@ + rest);
                },
                Err(_) => {},
            }
        }
    }
    proof {
        assert(payload@.skip(len as int) =~= Seq::<u8>::empty());
        assert(ops@ + Seq::<RollupOp>::empty() =~= ops@);
    }
    Ok(ops)
}

} // verus!
