use vstd::prelude::*;

use crate::register::DataType;

verus! {

/// A decoded register value. A 32-bit float is held as its IEEE-754 bit pattern.
#[derive(Clone, Copy, PartialEq, Eq, Debug)]
pub enum RegisterValue {
    U16(u16),
    U32(u32),
    U64(u64),
    U128(u128),
    S32(i32),
    Enum16(u16),
    Sized([u8; 66]),
    Float32(u32),
    Boolean(bool),
}

/// The words handed to the decoder were not as many as the type needs.
#[derive(Clone, Copy, PartialEq, Eq, Structural, Debug)]
pub struct DecodeError {
    pub expected: usize,
    pub found: usize,
}

/// How many words a value of the type takes.
pub open spec fn words_needed(t: DataType) -> nat {
    match t {
        DataType::UInt16 | DataType::Enum16 | DataType::Boolean => 1,
        DataType::UInt32 | DataType::Int32 | DataType::Float32 => 2,
        DataType::UInt64 => 4,
        DataType::UInt128 => 8,
        DataType::Sized => 33,
    }
}

/// 65536 to the power `n`: one more than the largest value `n` words can hold.
pub open spec fn word_bound(n: nat) -> nat
    decreases n,
{
    if n == 0 {
        1
    } else {
        word_bound((n - 1) as nat) * 65536
    }
}

/// The words read as one big-endian number, the first word most significant.
/// This is what taking each word's bytes high first, reversing the whole byte
/// string and reading it little-endian gives.
pub open spec fn be_value(w: Seq<u16>) -> nat
    decreases w.len(),
{
    if w.len() == 0 {
        0
    } else {
        (be_value(w.drop_last()) * 65536 + w.last()) as nat
    }
}

/// The bytes of the words, each word high byte first, in reverse order.
pub open spec fn reversed_bytes(w: Seq<u16>) -> Seq<u8> {
    Seq::new(
        2 * w.len(),
        |j: int|
            {
                let k = w.len() - 1 - j / 2;
                if j % 2 == 0 {
                    (w[k] % 256) as u8
                } else {
                    (w[k] / 256) as u8
                }
            },
    )
}

/// A 32-bit pattern read as a two's complement number.
pub open spec fn signed32(u: nat) -> int {
    if u < 0x8000_0000 {
        u as int
    } else {
        u - 0x1_0000_0000
    }
}

/// `v` is what the words `w` decode to as type `t`, the word count being right.
pub open spec fn decoded(w: Seq<u16>, t: DataType, v: RegisterValue) -> bool {
    match t {
        DataType::UInt16 => v == RegisterValue::U16(w[0]),
        DataType::Enum16 => v == RegisterValue::Enum16(w[0]),
        DataType::Boolean => v == RegisterValue::Boolean(w[0] == 0xFFFF),
        DataType::UInt32 => match v {
            RegisterValue::U32(x) => x == be_value(w),
            _ => false,
        },
        DataType::UInt64 => match v {
            RegisterValue::U64(x) => x == be_value(w),
            _ => false,
        },
        DataType::UInt128 => match v {
            RegisterValue::U128(x) => x == be_value(w),
            _ => false,
        },
        DataType::Int32 => match v {
            RegisterValue::S32(x) => x == signed32(be_value(w)),
            _ => false,
        },
        DataType::Float32 => match v {
            RegisterValue::Float32(x) => x == be_value(w),
            _ => false,
        },
        DataType::Sized => match v {
            RegisterValue::Sized(a) => a@ == reversed_bytes(w),
            _ => false,
        },
    }
}

proof fn lemma_be_value_bound(w: Seq<u16>)
    ensures
        be_value(w) < word_bound(w.len()),
    decreases w.len(),
{
    if w.len() > 0 {
        let p = w.drop_last();
        lemma_be_value_bound(p);
        let a = be_value(p);
        let b = word_bound(p.len());
        let l = w.last() as nat;
        assert(a * 65536 + l < b * 65536) by (nonlinear_arith)
            requires
                a < b,
                l < 65536,
        ;
    }
}

proof fn lemma_word_bound_mono(m: nat, n: nat)
    requires
        m <= n,
    ensures
        word_bound(m) <= word_bound(n),
    decreases n,
{
    if m < n {
        lemma_word_bound_mono(m, (n - 1) as nat);
    }
}

/// The words read as one big-endian number.
fn words_value(w: &[u16]) -> (r: u128)
    requires
        w@.len() <= 8,
    ensures
        r == be_value(w@),
{
    proof {
        reveal_with_fuel(word_bound, 9);
        assert(word_bound(8) == 0x1_0000_0000_0000_0000_0000_0000_0000_0000);
    }
    let mut acc: u128 = 0;
    let mut k: usize = 0;
    while k < w.len()
        invariant
            0 <= k <= w@.len() <= 8,
            acc == be_value(w@.subrange(0, k as int)),
            word_bound(8) == 0x1_0000_0000_0000_0000_0000_0000_0000_0000,
        decreases w@.len() - k,
    {
        let ghost next = w@.subrange(0, k + 1);
        proof {
            assert(next.drop_last() =~= w@.subrange(0, k as int));
            lemma_be_value_bound(next);
            lemma_word_bound_mono(next.len(), 8);
        }
        acc = acc * 65536 + w[k] as u128;
        k = k + 1;
    }
    assert(w@.subrange(0, k as int) =~= w@);
    acc
}

/// The bytes of the words, each word high byte first, in reverse order.
fn sized_bytes(w: &[u16]) -> (r: [u8; 66])
    requires
        w@.len() == 33,
    ensures
        r@ == reversed_bytes(w@),
{
    let mut a: [u8; 66] = [0u8; 66];
    let mut j: usize = 0;
    while j < 66
        invariant
            0 <= j <= 66,
            w@.len() == 33,
            forall|i: int| 0 <= i < j ==> a@[i] == reversed_bytes(w@)[i],
        decreases 66 - j,
    {
        let k: usize = 32 - j / 2;
        let word = w[k];
        let byte: u8 = if j % 2 == 0 {
            (word % 256) as u8
        } else {
            (word / 256) as u8
        };
        a[j] = byte;
        j = j + 1;
    }
    assert(a@ =~= reversed_bytes(w@));
    a
}

impl RegisterValue {
    /// Decodes the words of a register of type `kind`.
    ///
    /// One-word types take the word as it is (a boolean is true exactly when
    /// the word has every bit set); wider types read the words as one
    /// big-endian number, the blob as the reversed byte string. Fails when the
    /// number of words is not the one the type needs.
    pub fn decode(raw: &[u16], kind: DataType) -> (r: Result<RegisterValue, DecodeError>)
        ensures
            r is Ok <==> raw@.len() == words_needed(kind),
            r matches Ok(v) ==> decoded(raw@, kind, v),
            r matches Err(e) ==> e == (DecodeError {
                expected: words_needed(kind) as usize,
                found: raw@.len() as usize,
            }),
    {
        let expected: usize = match kind {
            DataType::UInt16 | DataType::Enum16 | DataType::Boolean => 1,
            DataType::UInt32 | DataType::Int32 | DataType::Float32 => 2,
            DataType::UInt64 => 4,
            DataType::UInt128 => 8,
            DataType::Sized => 33,
        };
        if raw.len() != expected {
            return Err(DecodeError { expected, found: raw.len() });
        }
        match kind {
            DataType::UInt16 => Ok(RegisterValue::U16(raw[0])),
            DataType::Enum16 => Ok(RegisterValue::Enum16(raw[0])),
            DataType::Boolean => Ok(RegisterValue::Boolean(raw[0] == 0xFFFF)),
            DataType::Sized => Ok(RegisterValue::Sized(sized_bytes(raw))),
            _ => {
                let v = words_value(raw);
                proof {
                    lemma_be_value_bound(raw@);
                    reveal_with_fuel(word_bound, 9);
                }
                match kind {
                    DataType::UInt32 => Ok(RegisterValue::U32(v as u32)),
                    DataType::UInt64 => Ok(RegisterValue::U64(v as u64)),
                    DataType::Int32 => {
                        let s: i64 = if v < 0x8000_0000 {
                            v as i64
                        } else {
                            v as i64 - 0x1_0000_0000
                        };
                        Ok(RegisterValue::S32(s as i32))
                    },
                    DataType::Float32 => Ok(RegisterValue::Float32(v as u32)),
                    _ => Ok(RegisterValue::U128(v)),
                }
            },
        }
    }
}

/// `x` written as `n` words, most significant first.
pub open spec fn be_words(x: nat, n: nat) -> Seq<u16>
    decreases n,
{
    if n == 0 {
        Seq::empty()
    } else {
        be_words(x / 65536, (n - 1) as nat).push((x % 65536) as u16)
    }
}

/// The type a value decodes from.
pub open spec fn type_of(v: RegisterValue) -> DataType {
    match v {
        RegisterValue::U16(_) => DataType::UInt16,
        RegisterValue::U32(_) => DataType::UInt32,
        RegisterValue::U64(_) => DataType::UInt64,
        RegisterValue::U128(_) => DataType::UInt128,
        RegisterValue::S32(_) => DataType::Int32,
        RegisterValue::Enum16(_) => DataType::Enum16,
        RegisterValue::Sized(_) => DataType::Sized,
        RegisterValue::Float32(_) => DataType::Float32,
        RegisterValue::Boolean(_) => DataType::Boolean,
    }
}

/// The words a device sends for a value: the decoding rule run backwards. A
/// boolean is sent as all bits clear or all bits set.
pub open spec fn encoded(v: RegisterValue) -> Seq<u16> {
    match v {
        RegisterValue::U16(x) => seq![x],
        RegisterValue::Enum16(x) => seq![x],
        RegisterValue::Boolean(b) => seq![if b { 0xFFFFu16 } else { 0u16 }],
        RegisterValue::U32(x) => be_words(x as nat, 2),
        RegisterValue::U64(x) => be_words(x as nat, 4),
        RegisterValue::U128(x) => be_words(x as nat, 8),
        RegisterValue::Float32(x) => be_words(x as nat, 2),
        RegisterValue::S32(x) => be_words(
            if x >= 0 {
                x as nat
            } else {
                (x + 0x1_0000_0000) as nat
            },
            2,
        ),
        RegisterValue::Sized(a) => Seq::new(
            33,
            |k: int| (a@[65 - 2 * k] as int * 256 + a@[64 - 2 * k] as int) as u16,
        ),
    }
}

proof fn lemma_be_words(x: nat, n: nat)
    requires
        x < word_bound(n),
    ensures
        be_words(x, n).len() == n,
        be_value(be_words(x, n)) == x,
    decreases n,
{
    if n > 0 {
        let q = x / 65536;
        let r = x % 65536;
        let b = word_bound((n - 1) as nat);
        assert(x == q * 65536 + r && q < b) by (nonlinear_arith)
            requires
                x < b * 65536,
                q == x / 65536,
                r == x % 65536,
        ;
        lemma_be_words(q, (n - 1) as nat);
        assert(be_words(x, n).drop_last() == be_words(q, (n - 1) as nat));
    }
}

proof fn lemma_sized_round_trip(a: [u8; 66])
    ensures
        reversed_bytes(encoded(RegisterValue::Sized(a))) =~= a@,
{
    let w = encoded(RegisterValue::Sized(a));
    assert forall|j: int| 0 <= j < 66 implies #[trigger] reversed_bytes(w)[j] == a@[j] by {
        let k = 32 - j / 2;
        let h = a@[65 - 2 * k] as int;
        let l = a@[64 - 2 * k] as int;
        assert(w[k] == h * 256 + l);
        assert((h * 256 + l) % 256 == l && (h * 256 + l) / 256 == h) by (nonlinear_arith)
            requires
                0 <= h < 256,
                0 <= l < 256,
        ;
    }
}

/// Encoding a value into words by the decoding rule run backwards, and
/// decoding those words as the value's type, gives the value back.
pub proof fn lemma_decode_round_trip(v: RegisterValue)
    ensures
        encoded(v).len() == words_needed(type_of(v)),
        decoded(encoded(v), type_of(v), v),
{
    reveal_with_fuel(word_bound, 9);
    match v {
        RegisterValue::U32(x) => lemma_be_words(x as nat, 2),
        RegisterValue::U64(x) => lemma_be_words(x as nat, 4),
        RegisterValue::U128(x) => lemma_be_words(x as nat, 8),
        RegisterValue::Float32(x) => lemma_be_words(x as nat, 2),
        RegisterValue::S32(x) => {
            let u: nat = if x >= 0 {
                x as nat
            } else {
                (x + 0x1_0000_0000) as nat
            };
            lemma_be_words(u, 2);
        },
        RegisterValue::Sized(a) => lemma_sized_round_trip(a),
        _ => {},
    }
}

} // verus!
