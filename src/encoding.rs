//! The canonical byte encoding of a block's identity, which is what gets signed
//! and hashed, and the hexadecimal rendering of digests.
use vstd::prelude::*;
use vstd::string::StringExecFns;

verus! {

/// The eight bytes of `n`, most significant first.
pub open spec fn be_bytes(n: u64) -> Seq<u8> {
    seq![
        (n >> 56u64) as u8,
        (n >> 48u64) as u8,
        (n >> 40u64) as u8,
        (n >> 32u64) as u8,
        (n >> 24u64) as u8,
        (n >> 16u64) as u8,
        (n >> 8u64) as u8,
        n as u8,
    ]
}

/// A length-delimited field: the byte count as eight big-endian bytes, then the bytes.
pub open spec fn field(b: Seq<u8>) -> Seq<u8> {
    be_bytes(b.len() as u64) + b
}

/// The UTF-8 bytes of a string.
pub open spec fn utf8(s: Seq<char>) -> Seq<u8> {
    vstd::utf8::encode_utf8(s)
}

/// The transactions, each as a length-delimited field, in order.
pub open spec fn txs_encoding(txs: Seq<Seq<char>>) -> Seq<u8>
    decreases txs.len(),
{
    if txs.len() == 0 {
        Seq::empty()
    } else {
        txs_encoding(txs.drop_last()) + field(utf8(txs.last()))
    }
}

/// The encoding of a block identity `(parent_hash, epoch, transactions)`:
/// the parent hash as a field, the epoch as eight bytes, the number of
/// transactions as eight bytes, then each transaction as a field.
pub open spec fn block_encoding(h: Seq<char>, e: u64, txs: Seq<Seq<char>>) -> Seq<u8> {
    field(utf8(h)) + be_bytes(e) + be_bytes(txs.len() as u64) + txs_encoding(txs)
}

/// Appends the eight big-endian bytes of `n` to `out`.
pub fn push_be_bytes(out: &mut Vec<u8>, n: u64)
    ensures
        final(out)@ == old(out)@ + be_bytes(n),
{
    out.push((n >> 56u64) as u8);
    out.push((n >> 48u64) as u8);
    out.push((n >> 40u64) as u8);
    out.push((n >> 32u64) as u8);
    out.push((n >> 24u64) as u8);
    out.push((n >> 16u64) as u8);
    out.push((n >> 8u64) as u8);
    out.push(n as u8);
    assert(final(out)@ =~= old(out)@ + be_bytes(n));
}

/// Appends `s` to `out` as a length-delimited field of its UTF-8 bytes.
pub fn push_field(out: &mut Vec<u8>, s: &String)
    ensures
        final(out)@ == old(out)@ + field(utf8(s@)),
{
    let bytes = s.as_str().as_bytes();
    push_be_bytes(out, bytes.len() as u64);
    let ghost mid = out@;
    let mut i: usize = 0;
    while i < bytes.len()
        invariant
            0 <= i <= bytes@.len(),
            bytes@ == utf8(s@),
            out@ == mid + bytes@.subrange(0, i as int),
        decreases bytes@.len() - i,
    {
        out.push(bytes[i]);
        i = i + 1;
        assert(out@ =~= mid + bytes@.subrange(0, i as int));
    }
    assert(bytes@.subrange(0, bytes@.len() as int) =~= bytes@);
}

/// The encoding of a block identity, as specified by `block_encoding`.
pub fn encode_identity(h: &String, e: u64, txs: &Vec<String>) -> (r: Vec<u8>)
    ensures
        r@ == block_encoding(h@, e, txs.deep_view()),
{
    let mut out: Vec<u8> = Vec::new();
    push_field(&mut out, h);
    push_be_bytes(&mut out, e);
    push_be_bytes(&mut out, txs.len() as u64);
    let ghost head = out@;
    let mut i: usize = 0;
    while i < txs.len()
        invariant
            0 <= i <= txs@.len(),
            head == field(utf8(h@)) + be_bytes(e) + be_bytes(txs.deep_view().len() as u64),
            out@ == head + txs_encoding(txs.deep_view().subrange(0, i as int)),
        decreases txs@.len() - i,
    {
        push_field(&mut out, &txs[i]);
        let ghost t = txs.deep_view().subrange(0, i + 1);
        assert(t.drop_last() =~= txs.deep_view().subrange(0, i as int));
        i = i + 1;
    }
    assert(txs.deep_view().subrange(0, i as int) =~= txs.deep_view());
    out
}

/// The lowercase hexadecimal digit of a value below sixteen.
pub open spec fn hex_digit(n: u8) -> char {
    if n < 10 {
        (('0' as u8) + n) as char
    } else {
        (('a' as u8) + n - 10) as char
    }
}

/// Two lowercase hexadecimal digits per byte, high nibble first.
pub open spec fn hex_of(b: Seq<u8>) -> Seq<char>
    decreases b.len(),
{
    if b.len() == 0 {
        Seq::empty()
    } else {
        hex_of(b.drop_last()) + seq![hex_digit(b.last() >> 4u8), hex_digit(b.last() & 15u8)]
    }
}

fn hex_digit_str(n: u8) -> (r: &'static str)
    requires
        n < 16,
    ensures
        r@ == seq![hex_digit(n)],
{
    if n == 0 {
        proof {
            reveal_strlit("0");
        }
        "0"
    } else if n == 1 {
        proof {
            reveal_strlit("1");
        }
        "1"
    } else if n == 2 {
        proof {
            reveal_strlit("2");
        }
        "2"
    } else if n == 3 {
        proof {
            reveal_strlit("3");
        }
        "3"
    } else if n == 4 {
        proof {
            reveal_strlit("4");
        }
        "4"
    } else if n == 5 {
        proof {
            reveal_strlit("5");
        }
        "5"
    } else if n == 6 {
        proof {
            reveal_strlit("6");
        }
        "6"
    } else if n == 7 {
        proof {
            reveal_strlit("7");
        }
        "7"
    } else if n == 8 {
        proof {
            reveal_strlit("8");
        }
        "8"
    } else if n == 9 {
        proof {
            reveal_strlit("9");
        }
        "9"
    } else if n == 10 {
        proof {
            reveal_strlit("a");
        }
        "a"
    } else if n == 11 {
        proof {
            reveal_strlit("b");
        }
        "b"
    } else if n == 12 {
        proof {
            reveal_strlit("c");
        }
        "c"
    } else if n == 13 {
        proof {
            reveal_strlit("d");
        }
        "d"
    } else if n == 14 {
        proof {
            reveal_strlit("e");
        }
        "e"
    } else if n == 15 {
        proof {
            reveal_strlit("f");
        }
        "f"
    } else {
        proof {
            reveal_strlit("f");
        }
        "f"
    }
}

/// Renders bytes as lowercase hexadecimal, two digits per byte.
pub fn to_hex(b: &Vec<u8>) -> (r: String)
    ensures
        r@ == hex_of(b@),
{
    let mut out = String::new();
    let mut i: usize = 0;
    while i < b.len()
        invariant
            0 <= i <= b@.len(),
            out@ == hex_of(b@.subrange(0, i as int)),
        decreases b@.len() - i,
    {
        let x = b[i];
        assert(x >> 4u8 < 16 && x & 15u8 < 16) by (bit_vector);
        out.append(hex_digit_str(x >> 4u8));
        out.append(hex_digit_str(x & 15u8));
        let ghost t = b@.subrange(0, i + 1);
        assert(t.drop_last() =~= b@.subrange(0, i as int));
        i = i + 1;
    }
    assert(b@.subrange(0, i as int) =~= b@);
    out
}

} // verus!
