//! Account addresses and 256-bit amounts as plain integers, with the
//! lowercase hexadecimal text in which they are stored.

use vstd::prelude::*;
use vstd::string::*;

verus! {

/// A 20-byte account identifier: `high` holds its first four bytes and `low`
/// the remaining sixteen, both read big-endian.
#[derive(Clone, Copy, Debug, Default, PartialEq, Eq, Hash, Structural)]
pub struct Address {
    pub high: u32,
    pub low: u128,
}

/// An unsigned 256-bit amount, `high * 2^128 + low`.
#[derive(Clone, Copy, Debug, Default, PartialEq, Eq, Hash, Structural)]
pub struct U256 {
    pub high: u128,
    pub low: u128,
}

/// The lowercase hexadecimal digit for `n < 16`.
pub open spec fn hex_digit(n: nat) -> char {
    if n == 0 {
        '0'
    } else if n == 1 {
        '1'
    } else if n == 2 {
        '2'
    } else if n == 3 {
        '3'
    } else if n == 4 {
        '4'
    } else if n == 5 {
        '5'
    } else if n == 6 {
        '6'
    } else if n == 7 {
        '7'
    } else if n == 8 {
        '8'
    } else if n == 9 {
        '9'
    } else if n == 10 {
        'a'
    } else if n == 11 {
        'b'
    } else if n == 12 {
        'c'
    } else if n == 13 {
        'd'
    } else if n == 14 {
        'e'
    } else {
        'f'
    }
}

/// The last `width` hexadecimal digits of `v`, most significant first.
pub open spec fn hex_fixed(v: nat, width: nat) -> Seq<char>
    decreases width,
{
    if width == 0 {
        Seq::empty()
    } else {
        hex_fixed(v / 16, (width - 1) as nat).push(hex_digit(v % 16))
    }
}

/// The hexadecimal digits of `v` without leading zeros; zero is `0`.
pub open spec fn hex_minimal(v: nat) -> Seq<char>
    decreases v,
{
    if v < 16 {
        seq![hex_digit(v)]
    } else {
        hex_minimal(v / 16).push(hex_digit(v % 16))
    }
}

/// The stored text of an address: `0x` and all forty digits.
pub open spec fn address_hex(addr: Address) -> Seq<char> {
    seq!['0', 'x'] + hex_fixed(addr.high as nat, 8) + hex_fixed(addr.low as nat, 32)
}

/// The stored text of an amount: `0x` and its digits without leading zeros.
pub open spec fn amount_hex(big: U256) -> Seq<char> {
    if big.high == 0 {
        seq!['0', 'x'] + hex_minimal(big.low as nat)
    } else {
        seq!['0', 'x'] + hex_minimal(big.high as nat) + hex_fixed(big.low as nat, 32)
    }
}

/// `c` is a digit or one of the letters `a` to `f`.
pub open spec fn is_lower_hex(c: char) -> bool {
    exists|n: nat| n < 16 && c == #[trigger] hex_digit(n)
}

/// A rendering of fixed width has that width and holds lowercase
/// hexadecimal digits only.
pub proof fn lemma_hex_fixed(v: nat, width: nat)
    ensures
        hex_fixed(v, width).len() == width,
        forall|i: int| 0 <= i < width ==> is_lower_hex(#[trigger] hex_fixed(v, width)[i]),
    decreases width,
{
    if width > 0 {
        lemma_hex_fixed(v / 16, (width - 1) as nat);
        assert forall|i: int| 0 <= i < width implies is_lower_hex(
            #[trigger] hex_fixed(v, width)[i],
        ) by {
            if i == width - 1 {
                assert(hex_fixed(v, width)[i] == hex_digit(v % 16));
            } else {
                assert(hex_fixed(v, width)[i] == hex_fixed(v / 16, (width - 1) as nat)[i]);
            }
        }
    }
}

/// A rendering without leading zeros holds lowercase hexadecimal digits
/// only, and begins with `0` only where the value is zero.
pub proof fn lemma_hex_minimal(v: nat)
    ensures
        hex_minimal(v).len() >= 1,
        forall|i: int|
            0 <= i < hex_minimal(v).len() ==> is_lower_hex(#[trigger] hex_minimal(v)[i]),
        hex_minimal(v)[0] == '0' <==> v == 0,
    decreases v,
{
    if v >= 16 {
        lemma_hex_minimal(v / 16);
        assert forall|i: int| 0 <= i < hex_minimal(v).len() implies is_lower_hex(
            #[trigger] hex_minimal(v)[i],
        ) by {
            if i == hex_minimal(v).len() - 1 {
                assert(hex_minimal(v)[i] == hex_digit(v % 16));
            } else {
                assert(hex_minimal(v)[i] == hex_minimal(v / 16)[i]);
            }
        }
        assert(hex_minimal(v)[0] == hex_minimal(v / 16)[0]);
    } else {
        assert(hex_minimal(v)[0] == hex_digit(v));
    }
}

/// The stored text of an address is `0x` and forty lowercase hexadecimal
/// digits.
pub proof fn lemma_address_hex(addr: Address)
    ensures
        address_hex(addr).len() == 42,
        address_hex(addr)[0] == '0',
        address_hex(addr)[1] == 'x',
        forall|i: int| 2 <= i < 42 ==> is_lower_hex(#[trigger] address_hex(addr)[i]),
{
    lemma_hex_fixed(addr.high as nat, 8);
    lemma_hex_fixed(addr.low as nat, 32);
    assert forall|i: int| 2 <= i < 42 implies is_lower_hex(#[trigger] address_hex(addr)[i]) by {
        if i < 10 {
            assert(address_hex(addr)[i] == hex_fixed(addr.high as nat, 8)[i - 2]);
        } else {
            assert(address_hex(addr)[i] == hex_fixed(addr.low as nat, 32)[i - 10]);
        }
    }
}

fn hex_digit_str(n: u8) -> (res: &'static str)
    requires
        n < 16,
    ensures
        res@ == seq![hex_digit(n as nat)],
{
    proof {
        reveal_strlit("0");
        reveal_strlit("1");
        reveal_strlit("2");
        reveal_strlit("3");
        reveal_strlit("4");
        reveal_strlit("5");
        reveal_strlit("6");
        reveal_strlit("7");
        reveal_strlit("8");
        reveal_strlit("9");
        reveal_strlit("a");
        reveal_strlit("b");
        reveal_strlit("c");
        reveal_strlit("d");
        reveal_strlit("e");
        reveal_strlit("f");
    }
    let res = if n == 0 {
        "0"
    } else if n == 1 {
        "1"
    } else if n == 2 {
        "2"
    } else if n == 3 {
        "3"
    } else if n == 4 {
        "4"
    } else if n == 5 {
        "5"
    } else if n == 6 {
        "6"
    } else if n == 7 {
        "7"
    } else if n == 8 {
        "8"
    } else if n == 9 {
        "9"
    } else if n == 10 {
        "a"
    } else if n == 11 {
        "b"
    } else if n == 12 {
        "c"
    } else if n == 13 {
        "d"
    } else if n == 14 {
        "e"
    } else {
        "f"
    };
    assert(res@ =~= seq![hex_digit(n as nat)]);
    res
}

fn push_hex_fixed(out: &mut String, v: u128, width: u8)
    ensures
        final(out)@ == old(out)@ + hex_fixed(v as nat, width as nat),
    decreases width,
{
    if width == 0 {
        assert(old(out)@ + hex_fixed(v as nat, 0) =~= old(out)@);
    } else {
        push_hex_fixed(out, v / 16, width - 1);
        let digit: u8 = (v % 16) as u8;
        out.append(hex_digit_str(digit));
        assert(final(out)@ =~= old(out)@ + hex_fixed(v as nat, width as nat));
    }
}

fn push_hex_minimal(out: &mut String, v: u128)
    ensures
        final(out)@ == old(out)@ + hex_minimal(v as nat),
    decreases v,
{
    if v >= 16 {
        push_hex_minimal(out, v / 16);
    }
    let digit: u8 = (v % 16) as u8;
    out.append(hex_digit_str(digit));
    assert(final(out)@ =~= old(out)@ + hex_minimal(v as nat));
}

impl Address {
    /// Whether this is the zero address, from which new tokens are minted.
    pub fn is_zero(&self) -> (res: bool)
        ensures
            res == (self.high == 0 && self.low == 0),
    {
        self.high == 0 && self.low == 0
    }
}

impl U256 {
    /// The amount `v`.
    pub fn from_u64(v: u64) -> (res: Self)
        ensures
            res.high == 0,
            res.low == v,
    {
        U256 { high: 0, low: v as u128 }
    }

    /// Whether the amount is zero.
    pub fn is_zero(&self) -> (res: bool)
        ensures
            res == (self.high == 0 && self.low == 0),
    {
        self.high == 0 && self.low == 0
    }

    /// Whether the amount is below `2^32`.
    pub fn fits_u32(&self) -> (res: bool)
        ensures
            res == (self.high == 0 && self.low <= u32::MAX),
    {
        self.high == 0 && self.low <= 0xffff_ffff
    }

    /// The amount as a `u32`.
    pub fn as_u32(&self) -> (res: u32)
        requires
            self.high == 0,
            self.low <= u32::MAX,
        ensures
            res == self.low,
    {
        self.low as u32
    }

    /// The lowest 32 bits of the amount.
    pub fn low_u32(&self) -> (res: u32)
        ensures
            res == self.low % 0x1_0000_0000,
    {
        (self.low % 0x1_0000_0000) as u32
    }
}

/// The last `width` bytes of `v`, most significant first.
pub open spec fn be_bytes(v: nat, width: nat) -> Seq<u8>
    decreases width,
{
    if width == 0 {
        Seq::empty()
    } else {
        be_bytes(v / 256, (width - 1) as nat).push((v % 256) as u8)
    }
}

/// The twenty bytes of an address.
pub open spec fn address_bytes(addr: Address) -> Seq<u8> {
    be_bytes(addr.high as nat, 4) + be_bytes(addr.low as nat, 16)
}

/// The thirty-two bytes of an amount, most significant first.
pub open spec fn amount_bytes(big: U256) -> Seq<u8> {
    be_bytes(big.high as nat, 16) + be_bytes(big.low as nat, 16)
}

pub proof fn lemma_be_bytes_len(v: nat, width: nat)
    ensures
        be_bytes(v, width).len() == width,
    decreases width,
{
    if width > 0 {
        lemma_be_bytes_len(v / 256, (width - 1) as nat);
    }
}

fn push_be_bytes(out: &mut Vec<u8>, v: u128, width: u8)
    ensures
        final(out)@ == old(out)@ + be_bytes(v as nat, width as nat),
    decreases width,
{
    if width == 0 {
        assert(old(out)@ + be_bytes(v as nat, 0) =~= old(out)@);
    } else {
        push_be_bytes(out, v / 256, width - 1);
        out.push((v % 256) as u8);
        assert(final(out)@ =~= old(out)@ + be_bytes(v as nat, width as nat));
    }
}

impl Address {
    /// The twenty bytes of the address.
    pub fn to_bytes(&self) -> (res: Vec<u8>)
        ensures
            res@ == address_bytes(*self),
            res@.len() == 20,
    {
        let mut out: Vec<u8> = Vec::new();
        push_be_bytes(&mut out, self.high as u128, 4);
        push_be_bytes(&mut out, self.low, 16);
        proof {
            lemma_be_bytes_len(self.high as nat, 4);
            lemma_be_bytes_len(self.low as nat, 16);
            assert(out@ =~= address_bytes(*self));
        }
        out
    }
}

impl U256 {
    /// The thirty-two bytes of the amount, most significant first.
    pub fn to_bytes(&self) -> (res: Vec<u8>)
        ensures
            res@ == amount_bytes(*self),
            res@.len() == 32,
    {
        let mut out: Vec<u8> = Vec::new();
        push_be_bytes(&mut out, self.high, 16);
        push_be_bytes(&mut out, self.low, 16);
        proof {
            lemma_be_bytes_len(self.high as nat, 16);
            lemma_be_bytes_len(self.low as nat, 16);
            assert(out@ =~= amount_bytes(*self));
        }
        out
    }
}

/// Renders an amount as it is stored: lowercase hexadecimal behind `0x`,
/// without leading zeros.
pub fn u256_to_hex(big: &U256) -> (res: String)
    ensures
        res@ == amount_hex(*big),
{
    proof {
        reveal_strlit("0x");
    }
    let mut out = String::from_str("0x");
    assert(out@ =~= seq!['0', 'x']);
    if big.high == 0 {
        push_hex_minimal(&mut out, big.low);
    } else {
        push_hex_minimal(&mut out, big.high);
        push_hex_fixed(&mut out, big.low, 32);
    }
    out
}

/// Renders an address as it is stored: `0x` and forty lowercase
/// hexadecimal digits.
pub fn addr_to_hex(addr: &Address) -> (res: String)
    ensures
        res@ == address_hex(*addr),
{
    proof {
        reveal_strlit("0x");
    }
    let mut out = String::from_str("0x");
    assert(out@ =~= seq!['0', 'x']);
    push_hex_fixed(&mut out, addr.high as u128, 8);
    push_hex_fixed(&mut out, addr.low, 32);
    out
}

} // verus!
