//! The dynamically typed value model of the wire format, together with the
//! mathematical description of its canonical encoding.

use vstd::prelude::*;

verus! {

/// A decoded, self-contained unit of the binary wire format.
///
/// Floating-point payloads are carried as raw IEEE-754 bit patterns
/// (`F32`/`F64`) so that encoding and decoding stay exact, bit-for-bit
/// operations. `Int` holds the strictly negative integers; every
/// non-negative integer is a `UInt`, so each integer value has exactly one
/// well-formed representation. Strings carry their UTF-8 payload bytes;
/// maps keep insertion order and permit duplicate keys.
#[derive(Debug, PartialEq)]
pub enum Value {
    Nil,
    Bool(bool),
    UInt(u64),
    Int(i64),
    F32(u32),
    F64(u64),
    Str(Vec<u8>),
    Bin(Vec<u8>),
    Ext(i8, Vec<u8>),
    Array(Vec<Value>),
    Dict(Vec<(Value, Value)>),
}

/// The mathematical form of a [`Value`]: payloads are byte sequences and
/// containers are sequences, so specifications and proofs can build and
/// take apart values freely.
pub enum ValueV {
    Nil,
    Bool(bool),
    UInt(u64),
    Int(i64),
    F32(u32),
    F64(u64),
    Str(Seq<u8>),
    Bin(Seq<u8>),
    Ext(i8, Seq<u8>),
    Array(Seq<ValueV>),
    Dict(Seq<(ValueV, ValueV)>),
}

impl View for Value {
    type V = ValueV;

    open spec fn view(&self) -> ValueV
        decreases self,
    {
        match self {
            Value::Nil => ValueV::Nil,
            Value::Bool(x) => ValueV::Bool(*x),
            Value::UInt(n) => ValueV::UInt(*n),
            Value::Int(i) => ValueV::Int(*i),
            Value::F32(bits) => ValueV::F32(*bits),
            Value::F64(bits) => ValueV::F64(*bits),
            Value::Str(payload) => ValueV::Str(payload@),
            Value::Bin(payload) => ValueV::Bin(payload@),
            Value::Ext(tag, payload) => ValueV::Ext(*tag, payload@),
            Value::Array(items) => ValueV::Array(view_list(items@)),
            Value::Dict(pairs) => ValueV::Dict(view_pairs(pairs@)),
        }
    }
}

impl Value {
    /// Decides well-formedness executably: exactly when the value's
    /// mathematical form is well formed, so callers can test the
    /// encoder's precondition before encoding.
    #[verifier::loop_isolation(false)]
    pub fn is_well_formed(&self) -> (r: bool)
        ensures
            r == self@.wf(),
        decreases self,
    {
        let cap: usize = 0xFFFFFFFF;
        match self {
            Value::Nil => true,
            Value::Bool(_) => true,
            Value::UInt(_) => true,
            Value::Int(i) => *i < 0,
            Value::F32(_) => true,
            Value::F64(_) => true,
            Value::Str(payload) => payload.len() <= cap,
            Value::Bin(payload) => payload.len() <= cap,
            Value::Ext(_, payload) => payload.len() <= cap,
            Value::Array(items) => {
                proof {
                    lemma_view_list_index(items@);
                }
                if items.len() > cap {
                    return false;
                }
                let mut i: usize = 0;
                while i < items.len()
                    invariant
                        i <= items@.len(),
                        forall|j: int| 0 <= j < i ==> (#[trigger] view_list(items@)[j]).wf(),
                    decreases items@.len() - i,
                {
                    if !items[i].is_well_formed() {
                        return false;
                    }
                    i = i + 1;
                }
                true
            },
            Value::Dict(pairs) => {
                proof {
                    lemma_view_pairs_index(pairs@);
                }
                if pairs.len() > cap {
                    return false;
                }
                let mut i: usize = 0;
                while i < pairs.len()
                    invariant
                        i <= pairs@.len(),
                        forall|j: int| 0 <= j < i ==> (#[trigger] view_pairs(pairs@)[j]).0.wf()
                            && view_pairs(pairs@)[j].1.wf(),
                    decreases pairs@.len() - i,
                {
                    let entry = &pairs[i];
                    if !entry.0.is_well_formed() {
                        return false;
                    }
                    if !entry.1.is_well_formed() {
                        return false;
                    }
                    i = i + 1;
                }
                true
            },
        }
    }
}

/// The element-wise view of a sequence of values.
pub open spec fn view_list(items: Seq<Value>) -> Seq<ValueV>
    decreases items,
{
    if items.len() == 0 {
        Seq::empty()
    } else {
        seq![items[0]@] + view_list(items.drop_first())
    }
}

/// The element-wise view of a sequence of key-value pairs.
pub open spec fn view_pairs(pairs: Seq<(Value, Value)>) -> Seq<(ValueV, ValueV)>
    decreases pairs,
{
    if pairs.len() == 0 {
        Seq::empty()
    } else {
        seq![(pairs[0].0@, pairs[0].1@)] + view_pairs(pairs.drop_first())
    }
}

/// How the element-wise views read back: index by index.
pub proof fn lemma_view_list_index(items: Seq<Value>)
    ensures
        view_list(items).len() == items.len(),
        forall|i: int| 0 <= i < items.len() ==> view_list(items)[i] == #[trigger] items[i]@,
    decreases items,
{
    if items.len() > 0 {
        let rest = items.drop_first();
        lemma_view_list_index(rest);
        assert(view_list(items) == seq![items[0]@] + view_list(rest));
        assert forall|i: int| 0 <= i < items.len() implies view_list(items)[i]
            == #[trigger] items[i]@ by {
            if i > 0 {
                assert(view_list(items)[i] == view_list(rest)[i - 1]);
                assert(rest[i - 1] == items[i]);
            }
        }
    }
}

/// How the element-wise pair views read back: index by index.
pub proof fn lemma_view_pairs_index(pairs: Seq<(Value, Value)>)
    ensures
        view_pairs(pairs).len() == pairs.len(),
        forall|i: int| 0 <= i < pairs.len() ==> view_pairs(pairs)[i] == (
            #[trigger] pairs[i].0@,
            pairs[i].1@,
        ),
    decreases pairs,
{
    if pairs.len() > 0 {
        let rest = pairs.drop_first();
        lemma_view_pairs_index(rest);
        assert(view_pairs(pairs) == seq![(pairs[0].0@, pairs[0].1@)] + view_pairs(rest));
        assert forall|i: int| 0 <= i < pairs.len() implies view_pairs(pairs)[i] == (
            #[trigger] pairs[i].0@,
            pairs[i].1@,
        ) by {
            if i > 0 {
                assert(view_pairs(pairs)[i] == view_pairs(rest)[i - 1]);
                assert(rest[i - 1] == pairs[i]);
            }
        }
    }
}

/// The numeric value of a big-endian byte string.
pub open spec fn be_val(b: Seq<u8>) -> nat
    decreases b.len(),
{
    if b.len() == 0 {
        0
    } else {
        be_val(b.drop_last()) * 256 + b.last() as nat
    }
}

/// The `width`-byte big-endian encoding of `n % pow256(width)`.
pub open spec fn be_bytes(n: nat, width: nat) -> Seq<u8>
    decreases width,
{
    if width == 0 {
        Seq::empty()
    } else {
        be_bytes(n / 256, (width - 1) as nat) + seq![(n % 256) as u8]
    }
}

/// `256^k`, the number of values a `k`-byte field can hold.
pub open spec fn pow256(k: nat) -> nat
    decreases k,
{
    if k == 0 {
        1
    } else {
        256 * pow256((k - 1) as nat)
    }
}

pub proof fn lemma_be_bytes_len(n: nat, width: nat)
    ensures
        be_bytes(n, width).len() == width,
    decreases width,
{
    if width > 0 {
        lemma_be_bytes_len(n / 256, (width - 1) as nat);
    }
}

/// A big-endian field reproduces the number it was built from.
pub proof fn lemma_be_val_be_bytes(n: nat, width: nat)
    requires
        n < pow256(width),
    ensures
        be_val(be_bytes(n, width)) == n,
    decreases width,
{
    if width > 0 {
        let rest = be_bytes(n / 256, (width - 1) as nat);
        let whole = rest + seq![(n % 256) as u8];
        assert(whole.drop_last() =~= rest) by {
            lemma_be_bytes_len(n / 256, (width - 1) as nat);
        }
        assert(n / 256 < pow256((width - 1) as nat)) by (nonlinear_arith)
            requires
                n < 256 * pow256((width - 1) as nat),
        ;
        lemma_be_val_be_bytes(n / 256, (width - 1) as nat);
        assert(be_val(whole) == (n / 256) * 256 + n % 256);
        vstd::arithmetic::div_mod::lemma_fundamental_div_mod(n as int, 256);
    }
}

/// A big-endian byte string denotes less than `pow256` of its width.
pub proof fn lemma_be_val_bound(b: Seq<u8>)
    ensures
        be_val(b) < pow256(b.len()),
    decreases b.len(),
{
    if b.len() > 0 {
        lemma_be_val_bound(b.drop_last());
    }
}

/// The two's-complement byte of an extension type tag.
pub open spec fn i8_byte(t: i8) -> u8 {
    if t >= 0 {
        t as u8
    } else {
        (t + 256) as u8
    }
}

/// The extension type tag denoted by a two's-complement byte.
pub open spec fn byte_i8(b: u8) -> i8 {
    if b < 128 {
        b as i8
    } else {
        (b - 256) as i8
    }
}

impl ValueV {
    /// A value is well formed when it can be given a canonical encoding:
    /// negative integers use `Int` and nothing else does, and every
    /// length and element count fits the widest size field of the format.
    pub open spec fn wf(self) -> bool
        decreases self,
    {
        match self {
            ValueV::Nil => true,
            ValueV::Bool(_) => true,
            ValueV::UInt(_) => true,
            ValueV::Int(i) => i < 0,
            ValueV::F32(_) => true,
            ValueV::F64(_) => true,
            ValueV::Str(payload) => payload.len() <= u32::MAX,
            ValueV::Bin(payload) => payload.len() <= u32::MAX,
            ValueV::Ext(_, payload) => payload.len() <= u32::MAX,
            ValueV::Array(items) => items.len() <= u32::MAX && (forall|i: int|
                0 <= i < items.len() ==> (#[trigger] items[i]).wf()),
            ValueV::Dict(pairs) => pairs.len() <= u32::MAX && (forall|i: int|
                0 <= i < pairs.len() ==> (#[trigger] pairs[i]).0.wf() && pairs[i].1.wf()),
        }
    }

    /// The canonical encoding of a value: the byte string that the encoder
    /// emits and that the decoder maps back to the value.
    pub open spec fn wire(self) -> Seq<u8>
        decreases self,
    {
        match self {
            ValueV::Nil => seq![0xc0u8],
            ValueV::Bool(x) => if x {
                seq![0xc3u8]
            } else {
                seq![0xc2u8]
            },
            ValueV::UInt(n) => if n <= 0x7f {
                seq![n as u8]
            } else if n <= 0xff {
                seq![0xccu8] + be_bytes(n as nat, 1)
            } else if n <= 0xffff {
                seq![0xcdu8] + be_bytes(n as nat, 2)
            } else if n <= 0xffffffff {
                seq![0xceu8] + be_bytes(n as nat, 4)
            } else {
                seq![0xcfu8] + be_bytes(n as nat, 8)
            },
            ValueV::Int(i) => if i >= -32 {
                seq![((i + 256) % 256) as u8]
            } else if i >= -128 {
                seq![0xd0u8] + be_bytes((i + 256) as nat, 1)
            } else if i >= -32768 {
                seq![0xd1u8] + be_bytes((i + 65536) as nat, 2)
            } else if i >= -2147483648 {
                seq![0xd2u8] + be_bytes((i + 4294967296) as nat, 4)
            } else {
                seq![0xd3u8] + be_bytes((i + 0x10000000000000000) as nat, 8)
            },
            ValueV::F32(bits) => seq![0xcau8] + be_bytes(bits as nat, 4),
            ValueV::F64(bits) => seq![0xcbu8] + be_bytes(bits as nat, 8),
            ValueV::Str(payload) => if payload.len() <= 31 {
                seq![(0xa0 + payload.len()) as u8] + payload
            } else if payload.len() <= 0xff {
                seq![0xd9u8] + be_bytes(payload.len(), 1) + payload
            } else if payload.len() <= 0xffff {
                seq![0xdau8] + be_bytes(payload.len(), 2) + payload
            } else {
                seq![0xdbu8] + be_bytes(payload.len(), 4) + payload
            },
            ValueV::Bin(payload) => if payload.len() <= 0xff {
                seq![0xc4u8] + be_bytes(payload.len(), 1) + payload
            } else if payload.len() <= 0xffff {
                seq![0xc5u8] + be_bytes(payload.len(), 2) + payload
            } else {
                seq![0xc6u8] + be_bytes(payload.len(), 4) + payload
            },
            ValueV::Ext(t, payload) => if payload.len() == 1 {
                seq![0xd4u8, i8_byte(t)] + payload
            } else if payload.len() == 2 {
                seq![0xd5u8, i8_byte(t)] + payload
            } else if payload.len() == 4 {
                seq![0xd6u8, i8_byte(t)] + payload
            } else if payload.len() == 8 {
                seq![0xd7u8, i8_byte(t)] + payload
            } else if payload.len() == 16 {
                seq![0xd8u8, i8_byte(t)] + payload
            } else if payload.len() <= 0xff {
                seq![0xc7u8] + be_bytes(payload.len(), 1) + seq![i8_byte(t)] + payload
            } else if payload.len() <= 0xffff {
                seq![0xc8u8] + be_bytes(payload.len(), 2) + seq![i8_byte(t)] + payload
            } else {
                seq![0xc9u8] + be_bytes(payload.len(), 4) + seq![i8_byte(t)] + payload
            },
            ValueV::Array(items) => if items.len() <= 15 {
                seq![(0x90 + items.len()) as u8] + wire_list(items)
            } else if items.len() <= 0xffff {
                seq![0xdcu8] + be_bytes(items.len(), 2) + wire_list(items)
            } else {
                seq![0xddu8] + be_bytes(items.len(), 4) + wire_list(items)
            },
            ValueV::Dict(pairs) => if pairs.len() <= 15 {
                seq![(0x80 + pairs.len()) as u8] + wire_pairs(pairs)
            } else if pairs.len() <= 0xffff {
                seq![0xdeu8] + be_bytes(pairs.len(), 2) + wire_pairs(pairs)
            } else {
                seq![0xdfu8] + be_bytes(pairs.len(), 4) + wire_pairs(pairs)
            },
        }
    }
}

/// The concatenated canonical encodings of a sequence of values.
pub open spec fn wire_list(vs: Seq<ValueV>) -> Seq<u8>
    decreases vs,
{
    if vs.len() == 0 {
        Seq::empty()
    } else {
        vs[0].wire() + wire_list(vs.drop_first())
    }
}

/// The concatenated canonical encodings of a sequence of key-value pairs,
/// keys and values alternating.
pub open spec fn wire_pairs(ps: Seq<(ValueV, ValueV)>) -> Seq<u8>
    decreases ps,
{
    if ps.len() == 0 {
        Seq::empty()
    } else {
        ps[0].0.wire() + ps[0].1.wire() + wire_pairs(ps.drop_first())
    }
}

} // verus!
