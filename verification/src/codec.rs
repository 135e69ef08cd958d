//! Decoding complete byte ranges into values and encoding values back
//! into bytes.
//!
//! The mathematical decoder [`dec`] fixes what every byte string means;
//! the executable codec is proved to return exactly what [`dec`] says.

use vstd::prelude::*;

use crate::parsing::{elems_size, lemma_value_size_pos, value_size};
use crate::value::{
    be_bytes, be_val, byte_i8, i8_byte, lemma_be_bytes_len, lemma_be_val_be_bytes,
    lemma_view_list_index, lemma_view_pairs_index, pow256, view_list, view_pairs, wire_list,
    wire_pairs, Value, ValueV,
};

verus! {

/// An integer read from a signed field, normalized so that each integer
/// has one representation: non-negative ones become `UInt`.
pub open spec fn int_value(v: int) -> ValueV {
    if v >= 0 {
        ValueV::UInt(v as u64)
    } else {
        ValueV::Int(v as i64)
    }
}

/// Groups a flat alternation of keys and values into pairs.
pub open spec fn to_pairs(s: Seq<ValueV>) -> Seq<(ValueV, ValueV)>
    decreases s.len(),
{
    if s.len() < 2 {
        Seq::empty()
    } else {
        seq![(s[0], s[1])] + to_pairs(s.skip(2))
    }
}

/// Flattens a sequence of pairs into the alternation of keys and values
/// that the wire carries.
pub open spec fn flat_pairs(ps: Seq<(ValueV, ValueV)>) -> Seq<ValueV>
    decreases ps,
{
    if ps.len() == 0 {
        Seq::empty()
    } else {
        seq![ps[0].0, ps[0].1] + flat_pairs(ps.drop_first())
    }
}

/// The meaning of a byte string: the single value encoded at its head
/// together with the number of bytes that value occupies, or `None` when
/// the bytes are too short or structurally invalid (the reserved tag).
pub open spec fn dec(b: Seq<u8>) -> Option<(ValueV, int)>
    decreases b.len(), 0int,
{
    if b.len() == 0 {
        None
    } else {
        let t = b[0];
        if t <= 0x7f {
            // positive fixint
            Some((ValueV::UInt(t as u64), 1int))
        } else if 0xe0 <= t {
            // negative fixint
            Some((ValueV::Int((t - 256) as i64), 1int))
        } else if t == 0xc0 {
            Some((ValueV::Nil, 1int))
        } else if t == 0xc1 {
            // reserved tag: structurally invalid
            None
        } else if t == 0xc2 {
            Some((ValueV::Bool(false), 1int))
        } else if t == 0xc3 {
            Some((ValueV::Bool(true), 1int))
        } else if t == 0xcc {
            // uint8
            if b.len() < 2 {
                None
            } else {
                Some((ValueV::UInt(b[1] as u64), 2int))
            }
        } else if t == 0xcd {
            // uint16
            if b.len() < 3 {
                None
            } else {
                Some((ValueV::UInt(be_val(b.subrange(1, 3)) as u64), 3int))
            }
        } else if t == 0xce {
            // uint32
            if b.len() < 5 {
                None
            } else {
                Some((ValueV::UInt(be_val(b.subrange(1, 5)) as u64), 5int))
            }
        } else if t == 0xcf {
            // uint64
            if b.len() < 9 {
                None
            } else {
                Some((ValueV::UInt(be_val(b.subrange(1, 9)) as u64), 9int))
            }
        } else if t == 0xd0 {
            // int8
            if b.len() < 2 {
                None
            } else {
                Some((
                    int_value(
                        if b[1] < 128 {
                            b[1] as int
                        } else {
                            b[1] - 256
                        },
                    ),
                    2int,
                ))
            }
        } else if t == 0xd1 {
            // int16
            if b.len() < 3 {
                None
            } else {
                let w = be_val(b.subrange(1, 3)) as int;
                Some((
                    int_value(
                        if w < 0x8000 {
                            w
                        } else {
                            w - 0x10000
                        },
                    ),
                    3int,
                ))
            }
        } else if t == 0xd2 {
            // int32
            if b.len() < 5 {
                None
            } else {
                let w = be_val(b.subrange(1, 5)) as int;
                Some((
                    int_value(
                        if w < 0x80000000 {
                            w
                        } else {
                            w - 0x100000000
                        },
                    ),
                    5int,
                ))
            }
        } else if t == 0xd3 {
            // int64
            if b.len() < 9 {
                None
            } else {
                let w = be_val(b.subrange(1, 9)) as int;
                Some((
                    int_value(
                        if w < 0x8000000000000000 {
                            w
                        } else {
                            w - 0x10000000000000000
                        },
                    ),
                    9int,
                ))
            }
        } else if t == 0xca {
            // float32 bits
            if b.len() < 5 {
                None
            } else {
                Some((ValueV::F32(be_val(b.subrange(1, 5)) as u32), 5int))
            }
        } else if t == 0xcb {
            // float64 bits
            if b.len() < 9 {
                None
            } else {
                Some((ValueV::F64(be_val(b.subrange(1, 9)) as u64), 9int))
            }
        } else if 0xa0 <= t && t <= 0xbf {
            // fixstring
            let n = (t - 0xa0) as int;
            if b.len() < 1 + n {
                None
            } else {
                Some((ValueV::Str(b.subrange(1, 1 + n)), 1 + n))
            }
        } else if t == 0xd9 {
            // str8
            if b.len() < 2 {
                None
            } else {
                let n = b[1] as int;
                if b.len() < 2 + n {
                    None
                } else {
                    Some((ValueV::Str(b.subrange(2, 2 + n)), 2 + n))
                }
            }
        } else if t == 0xda {
            // str16
            if b.len() < 3 {
                None
            } else {
                let n = be_val(b.subrange(1, 3)) as int;
                if b.len() < 3 + n {
                    None
                } else {
                    Some((ValueV::Str(b.subrange(3, 3 + n)), 3 + n))
                }
            }
        } else if t == 0xdb {
            // str32
            if b.len() < 5 {
                None
            } else {
                let n = be_val(b.subrange(1, 5)) as int;
                if b.len() < 5 + n {
                    None
                } else {
                    Some((ValueV::Str(b.subrange(5, 5 + n)), 5 + n))
                }
            }
        } else if t == 0xc4 {
            // bin8
            if b.len() < 2 {
                None
            } else {
                let n = b[1] as int;
                if b.len() < 2 + n {
                    None
                } else {
                    Some((ValueV::Bin(b.subrange(2, 2 + n)), 2 + n))
                }
            }
        } else if t == 0xc5 {
            // bin16
            if b.len() < 3 {
                None
            } else {
                let n = be_val(b.subrange(1, 3)) as int;
                if b.len() < 3 + n {
                    None
                } else {
                    Some((ValueV::Bin(b.subrange(3, 3 + n)), 3 + n))
                }
            }
        } else if t == 0xc6 {
            // bin32
            if b.len() < 5 {
                None
            } else {
                let n = be_val(b.subrange(1, 5)) as int;
                if b.len() < 5 + n {
                    None
                } else {
                    Some((ValueV::Bin(b.subrange(5, 5 + n)), 5 + n))
                }
            }
        } else if t == 0xd4 {
            // fixext(1)
            if b.len() < 3 {
                None
            } else {
                Some((ValueV::Ext(byte_i8(b[1]), b.subrange(2, 3)), 3int))
            }
        } else if t == 0xd5 {
            // fixext(2)
            if b.len() < 4 {
                None
            } else {
                Some((ValueV::Ext(byte_i8(b[1]), b.subrange(2, 4)), 4int))
            }
        } else if t == 0xd6 {
            // fixext(4)
            if b.len() < 6 {
                None
            } else {
                Some((ValueV::Ext(byte_i8(b[1]), b.subrange(2, 6)), 6int))
            }
        } else if t == 0xd7 {
            // fixext(8)
            if b.len() < 10 {
                None
            } else {
                Some((ValueV::Ext(byte_i8(b[1]), b.subrange(2, 10)), 10int))
            }
        } else if t == 0xd8 {
            // fixext(16)
            if b.len() < 18 {
                None
            } else {
                Some((ValueV::Ext(byte_i8(b[1]), b.subrange(2, 18)), 18int))
            }
        } else if t == 0xc7 {
            // ext8
            if b.len() < 2 {
                None
            } else {
                let n = b[1] as int;
                if b.len() < 3 + n {
                    None
                } else {
                    Some((ValueV::Ext(byte_i8(b[2]), b.subrange(3, 3 + n)), 3 + n))
                }
            }
        } else if t == 0xc8 {
            // ext16
            if b.len() < 3 {
                None
            } else {
                let n = be_val(b.subrange(1, 3)) as int;
                if b.len() < 4 + n {
                    None
                } else {
                    Some((ValueV::Ext(byte_i8(b[3]), b.subrange(4, 4 + n)), 4 + n))
                }
            }
        } else if t == 0xc9 {
            // ext32
            if b.len() < 5 {
                None
            } else {
                let n = be_val(b.subrange(1, 5)) as int;
                if b.len() < 6 + n {
                    None
                } else {
                    Some((ValueV::Ext(byte_i8(b[5]), b.subrange(6, 6 + n)), 6 + n))
                }
            }
        } else if 0x90 <= t && t <= 0x9f {
            // fixarray
            match dec_list(b.skip(1), (t - 0x90) as nat) {
                Some((vs, m)) => Some((ValueV::Array(vs), 1 + m)),
                None => None,
            }
        } else if t == 0xdc {
            // array16
            if b.len() < 3 {
                None
            } else {
                match dec_list(b.skip(3), be_val(b.subrange(1, 3))) {
                    Some((vs, m)) => Some((ValueV::Array(vs), 3 + m)),
                    None => None,
                }
            }
        } else if t == 0xdd {
            // array32
            if b.len() < 5 {
                None
            } else {
                match dec_list(b.skip(5), be_val(b.subrange(1, 5))) {
                    Some((vs, m)) => Some((ValueV::Array(vs), 5 + m)),
                    None => None,
                }
            }
        } else if 0x80 <= t && t <= 0x8f {
            // fixmap
            match dec_list(b.skip(1), 2 * ((t - 0x80) as nat)) {
                Some((vs, m)) => Some((ValueV::Dict(to_pairs(vs)), 1 + m)),
                None => None,
            }
        } else if t == 0xde {
            // map16
            if b.len() < 3 {
                None
            } else {
                match dec_list(b.skip(3), 2 * be_val(b.subrange(1, 3))) {
                    Some((vs, m)) => Some((ValueV::Dict(to_pairs(vs)), 3 + m)),
                    None => None,
                }
            }
        } else {
            // map32
            if b.len() < 5 {
                None
            } else {
                match dec_list(b.skip(5), 2 * be_val(b.subrange(1, 5))) {
                    Some((vs, m)) => Some((ValueV::Dict(to_pairs(vs)), 5 + m)),
                    None => None,
                }
            }
        }
    }
}

/// The meaning of `count` consecutive encoded values at the head of `b`,
/// together with the total number of bytes they occupy.
pub open spec fn dec_list(b: Seq<u8>, count: nat) -> Option<(Seq<ValueV>, int)>
    decreases b.len(), count + 1,
{
    if count == 0 {
        Some((Seq::empty(), 0int))
    } else {
        match dec(b) {
            Some((v, n)) => if 1 <= n && n <= b.len() {
                match dec_list(b.skip(n), (count - 1) as nat) {
                    Some((vs, m)) => Some((seq![v] + vs, n + m)),
                    None => None,
                }
            } else {
                None
            },
            None => None,
        }
    }
}

/// A decoded value occupies at least its tag byte and never more than the
/// buffer; a decoded run holds exactly as many values as were asked for.
pub proof fn lemma_dec_bounds(b: Seq<u8>)
    ensures
        dec(b) matches Some((v, n)) ==> 1 <= n <= b.len(),
    decreases b.len(), 0int,
{
    if b.len() > 0 {
        let t = b[0];
        if 0x90 <= t && t <= 0x9f {
            lemma_dec_list_bounds(b.skip(1), (t - 0x90) as nat);
        } else if 0x80 <= t && t <= 0x8f {
            lemma_dec_list_bounds(b.skip(1), 2 * ((t - 0x80) as nat));
        } else if (t == 0xdc || t == 0xde) && b.len() >= 3 {
            lemma_dec_list_bounds(b.skip(3), be_val(b.subrange(1, 3)));
            lemma_dec_list_bounds(b.skip(3), 2 * be_val(b.subrange(1, 3)));
        } else if (t == 0xdd || t == 0xdf) && b.len() >= 5 {
            lemma_dec_list_bounds(b.skip(5), be_val(b.subrange(1, 5)));
            lemma_dec_list_bounds(b.skip(5), 2 * be_val(b.subrange(1, 5)));
        }
    }
}

/// See [`lemma_dec_bounds`].
pub proof fn lemma_dec_list_bounds(b: Seq<u8>, count: nat)
    ensures
        dec_list(b, count) matches Some((vs, m)) ==> vs.len() == count && count <= m <= b.len(),
    decreases b.len(), count + 1,
{
    if count > 0 {
        lemma_dec_bounds(b);
        match dec(b) {
            Some((v, n)) => {
                if 1 <= n && n <= b.len() {
                    lemma_dec_list_bounds(b.skip(n), (count - 1) as nat);
                }
            },
            None => {},
        }
    }
}

/// The decoder and the sizer agree: whatever the decoder consumes is
/// exactly the length the sizer reports.
pub proof fn lemma_dec_value_size(b: Seq<u8>)
    ensures
        dec(b) matches Some((v, n)) ==> value_size(b) == Some(n),
    decreases b.len(), 0int,
{
    if b.len() > 0 {
        let t = b[0];
        if 0x90 <= t && t <= 0x9f {
            lemma_dec_list_elems_size(b.skip(1), (t - 0x90) as nat);
        } else if 0x80 <= t && t <= 0x8f {
            lemma_dec_list_elems_size(b.skip(1), 2 * ((t - 0x80) as nat));
        } else if (t == 0xdc || t == 0xde) && b.len() >= 3 {
            lemma_dec_list_elems_size(b.skip(3), be_val(b.subrange(1, 3)));
            lemma_dec_list_elems_size(b.skip(3), 2 * be_val(b.subrange(1, 3)));
        } else if (t == 0xdd || t == 0xdf) && b.len() >= 5 {
            lemma_dec_list_elems_size(b.skip(5), be_val(b.subrange(1, 5)));
            lemma_dec_list_elems_size(b.skip(5), 2 * be_val(b.subrange(1, 5)));
        }
    }
}

/// See [`lemma_dec_value_size`].
pub proof fn lemma_dec_list_elems_size(b: Seq<u8>, count: nat)
    ensures
        dec_list(b, count) matches Some((vs, m)) ==> elems_size(b, count) == Some(m),
    decreases b.len(), count + 1,
{
    if count > 0 {
        lemma_dec_bounds(b);
        lemma_dec_value_size(b);
        match dec(b) {
            Some((v, n)) => {
                if 1 <= n && n <= b.len() {
                    lemma_dec_list_elems_size(b.skip(n), (count - 1) as nat);
                }
            },
            None => {},
        }
    }
}

/// How the pair grouping reads back, pair by pair.
pub proof fn lemma_to_pairs_index(s: Seq<ValueV>)
    ensures
        to_pairs(s).len() == s.len() / 2,
        forall|i: int| 0 <= i < s.len() / 2 ==> #[trigger] to_pairs(s)[i] == (s[2 * i], s[2 * i
            + 1]),
    decreases s.len(),
{
    if s.len() >= 2 {
        lemma_to_pairs_index(s.skip(2));
        assert forall|i: int| 0 <= i < s.len() / 2 implies #[trigger] to_pairs(s)[i] == (
            s[2 * i],
            s[2 * i + 1],
        ) by {
            if i > 0 {
                assert(to_pairs(s)[i] == to_pairs(s.skip(2))[i - 1]);
                assert(s.skip(2)[2 * (i - 1)] == s[2 * i]);
                assert(s.skip(2)[2 * (i - 1) + 1] == s[2 * i + 1]);
            }
        }
    }
}

/// Whatever decodes is well formed: every length fits the size field it
/// came from and integers come out in normal form, so a decoded value
/// can always be encoded again.
#[verifier::rlimit(100)]
#[verifier::spinoff_prover]
pub proof fn lemma_dec_wf(b: Seq<u8>)
    ensures
        dec(b) matches Some((v, n)) ==> v.wf(),
    decreases b.len(), 1int,
{
    if b.len() > 0 {
        let t = b[0];
        lemma_pow256_values();
        if t == 0xcd || t == 0xd1 || t == 0xda || t == 0xc5 || t == 0xc8 {
            crate::value::lemma_be_val_bound(b.subrange(1, 3));
        } else if t == 0xce || t == 0xd2 || t == 0xdb || t == 0xc6 || t == 0xc9 {
            crate::value::lemma_be_val_bound(b.subrange(1, 5));
        } else if t == 0xcf || t == 0xd3 {
            crate::value::lemma_be_val_bound(b.subrange(1, 9));
        } else if 0x90 <= t && t <= 0x9f {
            lemma_dec_list_wf(b.skip(1), (t - 0x90) as nat);
            lemma_dec_list_bounds(b.skip(1), (t - 0x90) as nat);
        } else if t == 0xdc && b.len() >= 3 {
            crate::value::lemma_be_val_bound(b.subrange(1, 3));
            lemma_dec_list_wf(b.skip(3), be_val(b.subrange(1, 3)));
            lemma_dec_list_bounds(b.skip(3), be_val(b.subrange(1, 3)));
        } else if t == 0xdd && b.len() >= 5 {
            crate::value::lemma_be_val_bound(b.subrange(1, 5));
            lemma_dec_list_wf(b.skip(5), be_val(b.subrange(1, 5)));
            lemma_dec_list_bounds(b.skip(5), be_val(b.subrange(1, 5)));
        } else if 0x80 <= t && t <= 0x8f {
            dec_dict_wf(b, 1, (t - 0x80) as nat);
        } else if t == 0xde && b.len() >= 3 {
            crate::value::lemma_be_val_bound(b.subrange(1, 3));
            dec_dict_wf(b, 3, be_val(b.subrange(1, 3)));
        } else if t == 0xdf && b.len() >= 5 {
            crate::value::lemma_be_val_bound(b.subrange(1, 5));
            dec_dict_wf(b, 5, be_val(b.subrange(1, 5)));
        }
    }
}

/// The map step of [`lemma_dec_wf`]: the decoded alternation pairs up
/// into a well-formed map of `count` entries.
proof fn dec_dict_wf(b: Seq<u8>, header: int, count: nat)
    requires
        1 <= header <= b.len(),
        count <= u32::MAX,
    ensures
        dec_list(b.skip(header), 2 * count) matches Some((vs, m)) ==> ValueV::Dict(
            to_pairs(vs),
        ).wf(),
    decreases b.len(), 0int,
{
    lemma_dec_list_wf(b.skip(header), 2 * count);
    lemma_dec_list_bounds(b.skip(header), 2 * count);
    match dec_list(b.skip(header), 2 * count) {
        Some((vs, m)) => {
            lemma_to_pairs_index(vs);
        },
        None => {},
    }
}

/// See [`lemma_dec_wf`].
pub proof fn lemma_dec_list_wf(b: Seq<u8>, count: nat)
    ensures
        dec_list(b, count) matches Some((vs, m)) ==> forall|i: int|
            0 <= i < vs.len() ==> (#[trigger] vs[i]).wf(),
    decreases b.len(), count + 2,
{
    if count > 0 {
        lemma_dec_wf(b);
        lemma_dec_bounds(b);
        match dec(b) {
            Some((v, n)) => {
                if 1 <= n && n <= b.len() {
                    lemma_dec_list_wf(b.skip(n), (count - 1) as nat);
                }
            },
            None => {},
        }
    }
}

/// The values of the field widths the format uses.
pub proof fn lemma_pow256_values()
    ensures
        pow256(0) == 1,
        pow256(1) == 0x100,
        pow256(2) == 0x10000,
        pow256(4) == 0x100000000,
        pow256(8) == 0x10000000000000000,
{
    reveal_with_fuel(pow256, 9);
    assert(pow256(3) == 0x1000000);
    assert(pow256(5) == 0x10000000000);
    assert(pow256(6) == 0x1000000000000);
    assert(pow256(7) == 0x100000000000000);
}

/// Grouping the flat key-value alternation back into pairs is the
/// identity on pair sequences.
pub proof fn lemma_to_pairs_flat(ps: Seq<(ValueV, ValueV)>)
    ensures
        to_pairs(flat_pairs(ps)) == ps,
        flat_pairs(ps).len() == 2 * ps.len(),
    decreases ps,
{
    if ps.len() == 0 {
        assert(to_pairs(flat_pairs(ps)) =~= ps);
    } else {
        lemma_to_pairs_flat(ps.drop_first());
        assert(flat_pairs(ps).skip(2) =~= flat_pairs(ps.drop_first()));
        assert(to_pairs(flat_pairs(ps)) =~= ps);
    }
}

/// Decoding inverts encoding: the canonical byte string of a well-formed
/// value, however many bytes follow it, decodes back to that value and
/// consumes exactly that byte string.
#[verifier::rlimit(100)]
#[verifier::spinoff_prover]
pub proof fn lemma_wire_round_trip(v: ValueV, extra: Seq<u8>)
    requires
        v.wf(),
    ensures
        dec(v.wire() + extra) == Some((v, v.wire().len() as int)),
    decreases v,
{
    let b = v.wire() + extra;
    lemma_pow256_values();
    match v {
        ValueV::Nil => {},
        ValueV::Bool(_) => {},
        ValueV::UInt(n) => {
            if n <= 0x7f {
            } else if n <= 0xff {
                lemma_be_bytes_len(n as nat, 1);
                lemma_be_val_be_bytes(n as nat, 1);
                assert(b[1] == be_bytes(n as nat, 1)[0]);
                assert(be_val(be_bytes(n as nat, 1)) == be_bytes(n as nat, 1)[0]);
            } else if n <= 0xffff {
                lemma_be_bytes_len(n as nat, 2);
                lemma_be_val_be_bytes(n as nat, 2);
                assert(b.subrange(1, 3) =~= be_bytes(n as nat, 2));
            } else if n <= 0xffffffff {
                lemma_be_bytes_len(n as nat, 4);
                lemma_be_val_be_bytes(n as nat, 4);
                assert(b.subrange(1, 5) =~= be_bytes(n as nat, 4));
            } else {
                lemma_be_bytes_len(n as nat, 8);
                lemma_be_val_be_bytes(n as nat, 8);
                assert(b.subrange(1, 9) =~= be_bytes(n as nat, 8));
            }
        },
        ValueV::Int(i) => {
            if i >= -32 {
            } else if i >= -128 {
                lemma_be_bytes_len((i + 256) as nat, 1);
                lemma_be_val_be_bytes((i + 256) as nat, 1);
                assert(b[1] == be_bytes((i + 256) as nat, 1)[0]);
                assert(be_val(be_bytes((i + 256) as nat, 1)) == be_bytes((i + 256) as nat, 1)[0]);
                assert(b[1] >= 128);
            } else if i >= -32768 {
                lemma_be_bytes_len((i + 65536) as nat, 2);
                lemma_be_val_be_bytes((i + 65536) as nat, 2);
                assert(b.subrange(1, 3) =~= be_bytes((i + 65536) as nat, 2));
            } else if i >= -2147483648 {
                lemma_be_bytes_len((i + 4294967296) as nat, 4);
                lemma_be_val_be_bytes((i + 4294967296) as nat, 4);
                assert(b.subrange(1, 5) =~= be_bytes((i + 4294967296) as nat, 4));
            } else {
                lemma_be_bytes_len((i + 0x10000000000000000) as nat, 8);
                lemma_be_val_be_bytes((i + 0x10000000000000000) as nat, 8);
                assert(b.subrange(1, 9) =~= be_bytes((i + 0x10000000000000000) as nat, 8));
            }
        },
        ValueV::F32(bits) => {
            lemma_be_bytes_len(bits as nat, 4);
            lemma_be_val_be_bytes(bits as nat, 4);
            assert(b.subrange(1, 5) =~= be_bytes(bits as nat, 4));
        },
        ValueV::F64(bits) => {
            lemma_be_bytes_len(bits as nat, 8);
            lemma_be_val_be_bytes(bits as nat, 8);
            assert(b.subrange(1, 9) =~= be_bytes(bits as nat, 8));
        },
        ValueV::Str(payload) => {
            let n = payload.len() as int;
            if n <= 31 {
                assert(b[0] == (0xa0 + n) as u8);
                assert(b.subrange(1, 1 + n) =~= payload);
            } else if n <= 0xff {
                lemma_be_bytes_len(payload.len(), 1);
                lemma_be_val_be_bytes(payload.len(), 1);
                assert(b[1] == be_bytes(payload.len(), 1)[0]);
                assert(be_val(be_bytes(payload.len(), 1)) == be_bytes(payload.len(), 1)[0]);
                assert(b.subrange(2, 2 + n) =~= payload);
            } else if n <= 0xffff {
                lemma_be_bytes_len(payload.len(), 2);
                lemma_be_val_be_bytes(payload.len(), 2);
                assert(b.subrange(1, 3) =~= be_bytes(payload.len(), 2));
                assert(b.subrange(3, 3 + n) =~= payload);
            } else {
                lemma_be_bytes_len(payload.len(), 4);
                lemma_be_val_be_bytes(payload.len(), 4);
                assert(b.subrange(1, 5) =~= be_bytes(payload.len(), 4));
                assert(b.subrange(5, 5 + n) =~= payload);
            }
        },
        ValueV::Bin(payload) => {
            let n = payload.len() as int;
            if n <= 0xff {
                lemma_be_bytes_len(payload.len(), 1);
                lemma_be_val_be_bytes(payload.len(), 1);
                assert(b[1] == be_bytes(payload.len(), 1)[0]);
                assert(be_val(be_bytes(payload.len(), 1)) == be_bytes(payload.len(), 1)[0]);
                assert(b.subrange(2, 2 + n) =~= payload);
            } else if n <= 0xffff {
                lemma_be_bytes_len(payload.len(), 2);
                lemma_be_val_be_bytes(payload.len(), 2);
                assert(b.subrange(1, 3) =~= be_bytes(payload.len(), 2));
                assert(b.subrange(3, 3 + n) =~= payload);
            } else {
                lemma_be_bytes_len(payload.len(), 4);
                lemma_be_val_be_bytes(payload.len(), 4);
                assert(b.subrange(1, 5) =~= be_bytes(payload.len(), 4));
                assert(b.subrange(5, 5 + n) =~= payload);
            }
        },
        ValueV::Ext(t, payload) => {
            let n = payload.len() as int;
            assert(byte_i8(i8_byte(t)) == t);
            if n == 1 || n == 2 || n == 4 || n == 8 || n == 16 {
                assert(b[1] == i8_byte(t));
                assert(b.subrange(2, 2 + n) =~= payload);
            } else if n <= 0xff {
                lemma_be_bytes_len(payload.len(), 1);
                lemma_be_val_be_bytes(payload.len(), 1);
                assert(b[1] == be_bytes(payload.len(), 1)[0]);
                assert(be_val(be_bytes(payload.len(), 1)) == be_bytes(payload.len(), 1)[0]);
                assert(b[2] == i8_byte(t));
                assert(b.subrange(3, 3 + n) =~= payload);
            } else if n <= 0xffff {
                lemma_be_bytes_len(payload.len(), 2);
                lemma_be_val_be_bytes(payload.len(), 2);
                assert(b.subrange(1, 3) =~= be_bytes(payload.len(), 2));
                assert(b[3] == i8_byte(t));
                assert(b.subrange(4, 4 + n) =~= payload);
            } else {
                lemma_be_bytes_len(payload.len(), 4);
                lemma_be_val_be_bytes(payload.len(), 4);
                assert(b.subrange(1, 5) =~= be_bytes(payload.len(), 4));
                assert(b[5] == i8_byte(t));
                assert(b.subrange(6, 6 + n) =~= payload);
            }
        },
        ValueV::Array(items) => {
            let n = items.len() as int;
            let body = wire_list(items);
            if n <= 15 {
                assert(b[0] == (0x90 + n) as u8);
                assert(b.skip(1) =~= body + extra);
                lemma_wire_list_round_trip(items, extra);
            } else if n <= 0xffff {
                lemma_be_bytes_len(items.len(), 2);
                lemma_be_val_be_bytes(items.len(), 2);
                assert(b.subrange(1, 3) =~= be_bytes(items.len(), 2));
                assert(b.skip(3) =~= body + extra);
                lemma_wire_list_round_trip(items, extra);
            } else {
                lemma_be_bytes_len(items.len(), 4);
                lemma_be_val_be_bytes(items.len(), 4);
                assert(b.subrange(1, 5) =~= be_bytes(items.len(), 4));
                assert(b.skip(5) =~= body + extra);
                lemma_wire_list_round_trip(items, extra);
            }
        },
        ValueV::Dict(pairs) => {
            let n = pairs.len() as int;
            let body = wire_pairs(pairs);
            lemma_to_pairs_flat(pairs);
            if n <= 15 {
                assert(b[0] == (0x80 + n) as u8);
                assert(b.skip(1) =~= body + extra);
                lemma_wire_pairs_round_trip(pairs, extra);
            } else if n <= 0xffff {
                lemma_be_bytes_len(pairs.len(), 2);
                lemma_be_val_be_bytes(pairs.len(), 2);
                assert(b.subrange(1, 3) =~= be_bytes(pairs.len(), 2));
                assert(b.skip(3) =~= body + extra);
                lemma_wire_pairs_round_trip(pairs, extra);
            } else {
                lemma_be_bytes_len(pairs.len(), 4);
                lemma_be_val_be_bytes(pairs.len(), 4);
                assert(b.subrange(1, 5) =~= be_bytes(pairs.len(), 4));
                assert(b.skip(5) =~= body + extra);
                lemma_wire_pairs_round_trip(pairs, extra);
            }
        },
    }
}

/// See [`lemma_wire_round_trip`]: a run of well-formed values decodes
/// back element by element.
#[verifier::rlimit(100)]
#[verifier::spinoff_prover]
pub proof fn lemma_wire_list_round_trip(vs: Seq<ValueV>, extra: Seq<u8>)
    requires
        forall|i: int| 0 <= i < vs.len() ==> (#[trigger] vs[i]).wf(),
    ensures
        dec_list(wire_list(vs) + extra, vs.len()) == Some((vs, wire_list(vs).len() as int)),
    decreases vs,
{
    if vs.len() == 0 {
        assert(wire_list(vs) + extra =~= extra);
        assert(vs =~= Seq::<ValueV>::empty());
    } else {
        let head = vs[0];
        let rest = vs.drop_first();
        let b = wire_list(vs) + extra;
        assert(b =~= head.wire() + (wire_list(rest) + extra));
        lemma_wire_round_trip(head, wire_list(rest) + extra);
        lemma_dec_bounds(b);
        let n0 = head.wire().len() as int;
        assert(b.skip(n0) =~= wire_list(rest) + extra);
        lemma_wire_list_round_trip(rest, extra);
        assert(seq![head] + rest =~= vs);
    }
}

/// See [`lemma_wire_round_trip`]: a run of well-formed key-value pairs
/// decodes back as the flat alternation the wire carries.
#[verifier::rlimit(100)]
#[verifier::spinoff_prover]
pub proof fn lemma_wire_pairs_round_trip(ps: Seq<(ValueV, ValueV)>, extra: Seq<u8>)
    requires
        forall|i: int| 0 <= i < ps.len() ==> (#[trigger] ps[i]).0.wf() && ps[i].1.wf(),
    ensures
        dec_list(wire_pairs(ps) + extra, 2 * ps.len()) == Some(
            (flat_pairs(ps), wire_pairs(ps).len() as int),
        ),
    decreases ps,
{
    if ps.len() == 0 {
        assert(wire_pairs(ps) + extra =~= extra);
        assert(flat_pairs(ps) =~= Seq::<ValueV>::empty());
    } else {
        let key = ps[0].0;
        let val = ps[0].1;
        let rest = ps.drop_first();
        let b = wire_pairs(ps) + extra;
        assert(b =~= key.wire() + (val.wire() + (wire_pairs(rest) + extra)));
        lemma_wire_round_trip(key, val.wire() + (wire_pairs(rest) + extra));
        lemma_dec_bounds(b);
        let nk = key.wire().len() as int;
        assert(b.skip(nk) =~= val.wire() + (wire_pairs(rest) + extra));
        lemma_wire_round_trip(val, wire_pairs(rest) + extra);
        lemma_dec_bounds(b.skip(nk));
        let nv = val.wire().len() as int;
        assert(b.skip(nk).skip(nv) =~= wire_pairs(rest) + extra);
        lemma_wire_pairs_round_trip(rest, extra);
        let m = ps.len();
        assert(((2 * m - 1) - 1) as nat == 2 * rest.len());
        assert(dec_list(b.skip(nk), (2 * m - 1) as nat) == Some(
            (seq![val] + flat_pairs(rest), nv + wire_pairs(rest).len()),
        ));
        assert(seq![key] + (seq![val] + flat_pairs(rest)) =~= flat_pairs(ps));
        assert(dec_list(b, 2 * m) == Some((flat_pairs(ps), wire_pairs(ps).len() as int)));
    }
}

/// Round trip: the canonical encoding of any well-formed value decodes
/// back to exactly that value, consuming exactly its bytes.
pub proof fn lemma_round_trip(v: ValueV)
    requires
        v.wf(),
    ensures
        dec(v.wire()) == Some((v, v.wire().len() as int)),
{
    assert(v.wire() + Seq::<u8>::empty() =~= v.wire());
    lemma_wire_round_trip(v, Seq::empty());
}

/// Why a byte range failed to decode.
#[derive(Debug, PartialEq)]
pub enum DecodeError {
    /// The bytes are structurally invalid: a reserved tag byte, or a
    /// value that runs past the range judged complete.
    Invalid,
    /// The range did not hold exactly one encoded value.
    WrongSize,
}

/// Reads the `width`-byte big-endian field at `pos`.
fn read_be(buffer: &[u8], pos: usize, width: usize) -> (r: u64)
    requires
        pos + width <= buffer@.len(),
        width <= 8,
    ensures
        r == be_val(buffer@.subrange(pos as int, pos + width as int)),
        r < pow256(width as nat),
    decreases width,
{
    let total_len = buffer.len();
    proof {
        assert(pos + width <= total_len);
    }
    if width == 0 {
        proof {
            assert(buffer@.subrange(pos as int, pos as int) =~= Seq::<u8>::empty());
        }
        0
    } else {
        let hi = read_be(buffer, pos, width - 1);
        let lo = buffer[pos + width - 1];
        proof {
            lemma_pow256_values();
            let s = buffer@.subrange(pos as int, pos + width as int);
            assert(s.drop_last() =~= buffer@.subrange(pos as int, pos + width - 1 as int));
            assert(s.last() == buffer@[pos + width - 1]);
            assert(pow256(width as nat) == 256 * pow256((width - 1) as nat));
            lemma_pow256_increases((width - 1) as nat, 7);
            assert(hi * 256 + lo < 256 * pow256((width - 1) as nat)) by (nonlinear_arith)
                requires
                    hi < pow256((width - 1) as nat),
                    lo < 256,
            ;
        }
        hi * 256 + (lo as u64)
    }
}

/// Wider fields can hold every narrower field's value.
pub proof fn lemma_pow256_increases(a: nat, b: nat)
    requires
        a <= b,
    ensures
        pow256(a) <= pow256(b),
    decreases b,
{
    if a < b {
        lemma_pow256_increases(a, (b - 1) as nat);
        assert(pow256(b) == 256 * pow256((b - 1) as nat));
    }
}

/// Builds the value an integer field denotes, normalized: non-negative
/// integers become `UInt`.
fn mk_int(v: i64) -> (r: Value)
    ensures
        r@ == int_value(v as int),
{
    if v >= 0 {
        Value::UInt(v as u64)
    } else {
        Value::Int(v)
    }
}

/// The element-wise view of a longer run extends that of its prefix.
pub proof fn lemma_view_list_push(s: Seq<Value>, v: Value)
    ensures
        view_list(s.push(v)) == view_list(s) + seq![v@],
{
    lemma_view_list_index(s.push(v));
    lemma_view_list_index(s);
    assert forall|i: int| 0 <= i < s.len() + 1 implies view_list(s.push(v))[i] == (view_list(s)
        + seq![v@])[i] by {
        if i < s.len() {
            assert(s.push(v)[i] == s[i]);
            assert(s.push(v)[i]@ == s[i]@);
        } else {
            assert(s.push(v)[i] == v);
            assert(s.push(v)[i]@ == v@);
        }
    }
    assert(view_list(s.push(v)) =~= view_list(s) + seq![v@]);
}

/// The pair view of a longer run extends that of its prefix.
pub proof fn lemma_view_pairs_push(s: Seq<(Value, Value)>, p: (Value, Value))
    ensures
        view_pairs(s.push(p)) == view_pairs(s) + seq![(p.0@, p.1@)],
{
    lemma_view_pairs_index(s.push(p));
    lemma_view_pairs_index(s);
    assert forall|i: int| 0 <= i < s.len() + 1 implies view_pairs(s.push(p))[i] == (view_pairs(s)
        + seq![(p.0@, p.1@)])[i] by {
        if i < s.len() {
            assert(s.push(p)[i] == s[i]);
            assert(s.push(p)[i].0@ == s[i].0@);
        } else {
            assert(s.push(p)[i] == p);
            assert(s.push(p)[i].0@ == p.0@);
        }
    }
    assert(view_pairs(s.push(p)) =~= view_pairs(s) + seq![(p.0@, p.1@)]);
}

/// Decodes the single value that starts at `pos`, returning it with the
/// position just past its last byte.
#[verifier::rlimit(100)]
#[verifier::spinoff_prover]
fn decode_at(buffer: &[u8], pos: usize) -> (r: Result<(Value, usize), DecodeError>)
    requires
        pos < buffer@.len(),
    ensures
        match r {
            Ok((v, end)) => dec(buffer@.skip(pos as int)) == Some((v@, end - pos)) && pos < end
                <= buffer@.len(),
            Err(e) => dec(buffer@.skip(pos as int)) is None && e == DecodeError::Invalid,
        },
    decreases buffer@.len() - pos, 0int,
{
    let buffer_len = buffer.len();
    let remaining = buffer_len - pos;
    let t = buffer[pos];
    let ghost bsuf = buffer@.skip(pos as int);
    proof {
        assert(bsuf.len() == buffer@.len() - pos);
        assert(bsuf[0] == t);
    }

    if t <= 0x7f {
        Ok((Value::UInt(t as u64), pos + 1))
    } else if 0xe0 <= t {
        Ok((Value::Int(t as i64 - 256), pos + 1))
    } else if t == 0xc0 {
        Ok((Value::Nil, pos + 1))
    } else if t == 0xc1 {
        Err(DecodeError::Invalid)
    } else if t == 0xc2 {
        Ok((Value::Bool(false), pos + 1))
    } else if t == 0xc3 {
        Ok((Value::Bool(true), pos + 1))
    } else if t == 0xcc {
        if remaining < 2 {
            return Err(DecodeError::Invalid);
        }
        Ok((Value::UInt(buffer[pos + 1] as u64), pos + 2))
    } else if t == 0xcd {
        if remaining < 3 {
            return Err(DecodeError::Invalid);
        }
        let w = read_be(buffer, pos + 1, 2);
        proof {
            assert(bsuf.subrange(1, 3) =~= buffer@.subrange(pos + 1, pos + 3));
        }
        Ok((Value::UInt(w), pos + 3))
    } else if t == 0xce {
        if remaining < 5 {
            return Err(DecodeError::Invalid);
        }
        let w = read_be(buffer, pos + 1, 4);
        proof {
            assert(bsuf.subrange(1, 5) =~= buffer@.subrange(pos + 1, pos + 5));
        }
        Ok((Value::UInt(w), pos + 5))
    } else if t == 0xcf {
        if remaining < 9 {
            return Err(DecodeError::Invalid);
        }
        let w = read_be(buffer, pos + 1, 8);
        proof {
            assert(bsuf.subrange(1, 9) =~= buffer@.subrange(pos + 1, pos + 9));
        }
        Ok((Value::UInt(w), pos + 9))
    } else if t == 0xd0 {
        if remaining < 2 {
            return Err(DecodeError::Invalid);
        }
        let x = buffer[pos + 1];
        let v: i64 = if x < 128 {
            x as i64
        } else {
            x as i64 - 256
        };
        Ok((mk_int(v), pos + 2))
    } else if t == 0xd1 {
        if remaining < 3 {
            return Err(DecodeError::Invalid);
        }
        let w = read_be(buffer, pos + 1, 2);
        proof {
            lemma_pow256_values();
            assert(bsuf.subrange(1, 3) =~= buffer@.subrange(pos + 1, pos + 3));
        }
        let v: i64 = if w < 0x8000 {
            w as i64
        } else {
            w as i64 - 0x10000
        };
        Ok((mk_int(v), pos + 3))
    } else if t == 0xd2 {
        if remaining < 5 {
            return Err(DecodeError::Invalid);
        }
        let w = read_be(buffer, pos + 1, 4);
        proof {
            lemma_pow256_values();
            assert(bsuf.subrange(1, 5) =~= buffer@.subrange(pos + 1, pos + 5));
        }
        let v: i64 = if w < 0x80000000 {
            w as i64
        } else {
            w as i64 - 0x100000000
        };
        Ok((mk_int(v), pos + 5))
    } else if t == 0xd3 {
        if remaining < 9 {
            return Err(DecodeError::Invalid);
        }
        let w = read_be(buffer, pos + 1, 8);
        proof {
            lemma_pow256_values();
            assert(bsuf.subrange(1, 9) =~= buffer@.subrange(pos + 1, pos + 9));
        }
        if w < 0x8000000000000000 {
            Ok((Value::UInt(w), pos + 9))
        } else {
            let v: i64 = -((u64::MAX - w) as i64) - 1;
            proof {
                assert(v as int == w - 0x10000000000000000);
            }
            Ok((Value::Int(v), pos + 9))
        }
    } else if t == 0xca {
        if remaining < 5 {
            return Err(DecodeError::Invalid);
        }
        let w = read_be(buffer, pos + 1, 4);
        proof {
            lemma_pow256_values();
            assert(bsuf.subrange(1, 5) =~= buffer@.subrange(pos + 1, pos + 5));
        }
        Ok((Value::F32(w as u32), pos + 5))
    } else if t == 0xcb {
        if remaining < 9 {
            return Err(DecodeError::Invalid);
        }
        let w = read_be(buffer, pos + 1, 8);
        proof {
            assert(bsuf.subrange(1, 9) =~= buffer@.subrange(pos + 1, pos + 9));
        }
        Ok((Value::F64(w), pos + 9))
    } else if 0xa0 <= t && t <= 0xbf {
        let n = (t - 0xa0) as usize;
        if remaining < 1 + n {
            return Err(DecodeError::Invalid);
        }
        let payload = vstd::slice::slice_to_vec(
            vstd::slice::slice_subrange(buffer, pos + 1, pos + 1 + n),
        );
        proof {
            assert(bsuf.subrange(1, 1 + n as int) =~= buffer@.subrange(pos + 1, pos + 1 + n));
        }
        Ok((Value::Str(payload), pos + 1 + n))
    } else if t == 0xd9 || t == 0xc4 {
        if remaining < 2 {
            return Err(DecodeError::Invalid);
        }
        let n = buffer[pos + 1] as usize;
        if remaining < 2 + n {
            return Err(DecodeError::Invalid);
        }
        let payload = vstd::slice::slice_to_vec(
            vstd::slice::slice_subrange(buffer, pos + 2, pos + 2 + n),
        );
        proof {
            assert(bsuf.subrange(2, 2 + n as int) =~= buffer@.subrange(pos + 2, pos + 2 + n));
        }
        if t == 0xd9 {
            Ok((Value::Str(payload), pos + 2 + n))
        } else {
            Ok((Value::Bin(payload), pos + 2 + n))
        }
    } else if t == 0xda || t == 0xc5 {
        if remaining < 3 {
            return Err(DecodeError::Invalid);
        }
        let n64 = read_be(buffer, pos + 1, 2);
        proof {
            lemma_pow256_values();
            assert(bsuf.subrange(1, 3) =~= buffer@.subrange(pos + 1, pos + 3));
        }
        let n = n64 as usize;
        if remaining < 3 || (remaining - 3) < n {
            return Err(DecodeError::Invalid);
        }
        let payload = vstd::slice::slice_to_vec(
            vstd::slice::slice_subrange(buffer, pos + 3, pos + 3 + n),
        );
        proof {
            assert(bsuf.subrange(3, 3 + n as int) =~= buffer@.subrange(pos + 3, pos + 3 + n));
        }
        if t == 0xda {
            Ok((Value::Str(payload), pos + 3 + n))
        } else {
            Ok((Value::Bin(payload), pos + 3 + n))
        }
    } else if t == 0xdb || t == 0xc6 {
        if remaining < 5 {
            return Err(DecodeError::Invalid);
        }
        let n64 = read_be(buffer, pos + 1, 4);
        proof {
            lemma_pow256_values();
            assert(bsuf.subrange(1, 5) =~= buffer@.subrange(pos + 1, pos + 5));
        }
        if ((remaining - 5) as u64) < n64 {
            return Err(DecodeError::Invalid);
        }
        let n = n64 as usize;
        let payload = vstd::slice::slice_to_vec(
            vstd::slice::slice_subrange(buffer, pos + 5, pos + 5 + n),
        );
        proof {
            assert(bsuf.subrange(5, 5 + n as int) =~= buffer@.subrange(pos + 5, pos + 5 + n));
        }
        if t == 0xdb {
            Ok((Value::Str(payload), pos + 5 + n))
        } else {
            Ok((Value::Bin(payload), pos + 5 + n))
        }
    } else if t == 0xd4 || t == 0xd5 || t == 0xd6 || t == 0xd7 || t == 0xd8 {
        let n: usize = if t == 0xd4 {
            1
        } else if t == 0xd5 {
            2
        } else if t == 0xd6 {
            4
        } else if t == 0xd7 {
            8
        } else {
            16
        };
        if remaining < 2 + n {
            return Err(DecodeError::Invalid);
        }
        let tag = to_i8(buffer[pos + 1]);
        let payload = vstd::slice::slice_to_vec(
            vstd::slice::slice_subrange(buffer, pos + 2, pos + 2 + n),
        );
        proof {
            assert(bsuf.subrange(2, 2 + n as int) =~= buffer@.subrange(pos + 2, pos + 2 + n));
        }
        Ok((Value::Ext(tag, payload), pos + 2 + n))
    } else if t == 0xc7 {
        if remaining < 2 {
            return Err(DecodeError::Invalid);
        }
        let n = buffer[pos + 1] as usize;
        if remaining < 3 || (remaining - 3) < n {
            return Err(DecodeError::Invalid);
        }
        let tag = to_i8(buffer[pos + 2]);
        let payload = vstd::slice::slice_to_vec(
            vstd::slice::slice_subrange(buffer, pos + 3, pos + 3 + n),
        );
        proof {
            assert(bsuf.subrange(3, 3 + n as int) =~= buffer@.subrange(pos + 3, pos + 3 + n));
        }
        Ok((Value::Ext(tag, payload), pos + 3 + n))
    } else if t == 0xc8 {
        if remaining < 3 {
            return Err(DecodeError::Invalid);
        }
        let n64 = read_be(buffer, pos + 1, 2);
        proof {
            lemma_pow256_values();
            assert(bsuf.subrange(1, 3) =~= buffer@.subrange(pos + 1, pos + 3));
        }
        let n = n64 as usize;
        if remaining < 4 || (remaining - 4) < n {
            return Err(DecodeError::Invalid);
        }
        let tag = to_i8(buffer[pos + 3]);
        let payload = vstd::slice::slice_to_vec(
            vstd::slice::slice_subrange(buffer, pos + 4, pos + 4 + n),
        );
        proof {
            assert(bsuf.subrange(4, 4 + n as int) =~= buffer@.subrange(pos + 4, pos + 4 + n));
        }
        Ok((Value::Ext(tag, payload), pos + 4 + n))
    } else if t == 0xc9 {
        if remaining < 5 {
            return Err(DecodeError::Invalid);
        }
        let n64 = read_be(buffer, pos + 1, 4);
        proof {
            lemma_pow256_values();
            assert(bsuf.subrange(1, 5) =~= buffer@.subrange(pos + 1, pos + 5));
        }
        if ((remaining - 5) as u64) < n64 + 1 {
            return Err(DecodeError::Invalid);
        }
        let n = n64 as usize;
        let tag = to_i8(buffer[pos + 5]);
        let payload = vstd::slice::slice_to_vec(
            vstd::slice::slice_subrange(buffer, pos + 6, pos + 6 + n),
        );
        proof {
            assert(bsuf.subrange(6, 6 + n as int) =~= buffer@.subrange(pos + 6, pos + 6 + n));
        }
        Ok((Value::Ext(tag, payload), pos + 6 + n))
    } else if 0x90 <= t && t <= 0x9f {
        let count = (t - 0x90) as usize;
        proof {
            assert(bsuf.skip(1) =~= buffer@.skip(pos + 1 as int));
        }
        match decode_elems(buffer, pos + 1, count) {
            Ok((items, end)) => Ok((Value::Array(items), end)),
            Err(e) => Err(e),
        }
    } else if t == 0xdc || t == 0xdd {
        let header: usize = if t == 0xdc {
            3
        } else {
            5
        };
        if remaining < header {
            return Err(DecodeError::Invalid);
        }
        let count64 = read_be(buffer, pos + 1, header - 1);
        proof {
            lemma_pow256_values();
            assert(bsuf.subrange(1, header as int) =~= buffer@.subrange(
                pos + 1,
                pos + header as int,
            ));
            assert(bsuf.skip(header as int) =~= buffer@.skip(pos + header as int));
        }
        let count = count64 as usize;
        match decode_elems(buffer, pos + header, count) {
            Ok((items, end)) => Ok((Value::Array(items), end)),
            Err(e) => Err(e),
        }
    } else if 0x80 <= t && t <= 0x8f {
        let count = (t - 0x80) as usize * 2;
        proof {
            assert(bsuf.skip(1) =~= buffer@.skip(pos + 1 as int));
        }
        match decode_elems(buffer, pos + 1, count) {
            Ok((flat, end)) => Ok((Value::Dict(pair_up(flat)), end)),
            Err(e) => Err(e),
        }
    } else {
        // map16 | map32
        let header: usize = if t == 0xde {
            3
        } else {
            5
        };
        if remaining < header {
            return Err(DecodeError::Invalid);
        }
        let count64 = read_be(buffer, pos + 1, header - 1);
        proof {
            lemma_pow256_values();
            assert(bsuf.subrange(1, header as int) =~= buffer@.subrange(
                pos + 1,
                pos + header as int,
            ));
            assert(bsuf.skip(header as int) =~= buffer@.skip(pos + header as int));
        }
        let doubled: u64 = count64 * 2;
        if doubled > (remaining - header) as u64 {
            proof {
                lemma_dec_list_bounds(bsuf.skip(header as int), (2 * count64) as nat);
            }
            return Err(DecodeError::Invalid);
        }
        let count = doubled as usize;
        match decode_elems(buffer, pos + header, count) {
            Ok((flat, end)) => Ok((Value::Dict(pair_up(flat)), end)),
            Err(e) => Err(e),
        }
    }
}

/// Reads a two's-complement byte as an extension type tag.
fn to_i8(b: u8) -> (r: i8)
    ensures
        r == byte_i8(b),
{
    if b < 128 {
        b as i8
    } else {
        ((b as i32) - 256) as i8
    }
}

/// Decodes `count` consecutive values starting at `pos`.
fn decode_elems(buffer: &[u8], pos: usize, count: usize) -> (r: Result<
    (Vec<Value>, usize),
    DecodeError,
>)
    requires
        pos <= buffer@.len(),
    ensures
        match r {
            Ok((vs, end)) => dec_list(buffer@.skip(pos as int), count as nat) == Some(
                (view_list(vs@), end - pos),
            ) && pos <= end <= buffer@.len() && vs@.len() == count,
            Err(e) => dec_list(buffer@.skip(pos as int), count as nat) is None && e
                == DecodeError::Invalid,
        },
    decreases buffer@.len() - pos, 1int,
{
    let buffer_len = buffer.len();
    let mut vs: Vec<Value> = Vec::new();
    let mut cur = pos;
    let mut done: usize = 0;

    while done < count
        invariant
            pos <= cur <= buffer_len,
            buffer_len == buffer@.len(),
            done <= count,
            vs@.len() == done,
            dec_list(buffer@.skip(pos as int), count as nat) == match dec_list(
                buffer@.skip(cur as int),
                (count - done) as nat,
            ) {
                Some((rest, m)) => Some(
                    (view_list(vs@) + rest, (cur - pos) + m),
                ),
                None => None::<(Seq<ValueV>, int)>,
            },
        decreases count - done,
    {
        if cur == buffer_len {
            proof {
                assert(buffer@.skip(cur as int).len() == 0);
            }
            return Err(DecodeError::Invalid);
        }
        match decode_at(buffer, cur) {
            Ok((v, end)) => {
                proof {
                    lemma_view_list_push(vs@, v);
                    assert(buffer@.skip(cur as int).skip((end - cur) as int) =~= buffer@.skip(
                        end as int,
                    ));
                }
                vs.push(v);
                cur = end;
            },
            Err(e) => {
                return Err(e);
            },
        }
        done = done + 1;
    }
    proof {
        assert(view_list(vs@) + Seq::<ValueV>::empty()
            =~= view_list(vs@));
    }
    Ok((vs, cur))
}

/// Groups a flat alternation of decoded keys and values into pairs.
fn pair_up(flat: Vec<Value>) -> (r: Vec<(Value, Value)>)
    ensures
        view_pairs(r@) == to_pairs(view_list(flat@)),
{
    let ghost flat0 = flat@;
    let mut flat = flat;
    let mut out: Vec<(Value, Value)> = Vec::new();

    while flat.len() >= 2
        invariant
            to_pairs(view_list(flat0)) == view_pairs(out@) + to_pairs(
                view_list(flat@),
            ),
        decreases flat@.len(),
    {
        let ghost prev = flat@;
        let k = flat.remove(0);
        let v = flat.remove(0);
        proof {
            assert(prev =~= seq![k, v] + flat@);
            lemma_pair_step(k, v, flat@);
            lemma_view_pairs_push(out@, (k, v));
            assert((view_pairs(out@) + seq![(k@, v@)]) + to_pairs(
                view_list(flat@),
            ) =~= view_pairs(out@) + (seq![(k@, v@)] + to_pairs(
                view_list(flat@),
            )));
        }
        out.push((k, v));
    }
    proof {
        assert(view_list(flat@).len() == flat@.len()) by {
            lemma_view_list_index(flat@);
        }
        assert(to_pairs(view_list(flat@)) =~= Seq::<
            (ValueV, ValueV),
        >::empty());
        assert(view_pairs(out@) + Seq::<
            (ValueV, ValueV),
        >::empty() =~= view_pairs(out@));
    }
    out
}

/// One grouping step: a key, its value, and the rest of the alternation.
proof fn lemma_pair_step(k: Value, v: Value, rest: Seq<Value>)
    ensures
        to_pairs(view_list(seq![k, v] + rest)) == seq![(k@, v@)] + to_pairs(
            view_list(rest),
        ),
{
    let items = seq![k, v] + rest;
    let s = view_list(items);
    lemma_view_list_index(items);
    lemma_view_list_index(rest);
    assert(s.len() == 2 + rest.len());
    assert(items[0] == k);
    assert(items[0]@ == k@);
    assert(items[1] == v);
    assert(items[1]@ == v@);
    assert forall|i: int| 0 <= i < rest.len() implies s.skip(2)[i] == view_list(rest)[i] by {
        assert(items[i + 2] == rest[i]);
        assert(items[i + 2]@ == rest[i]@);
    }
    assert(s.skip(2) =~= view_list(rest));
}

/// Decodes a byte range that holds exactly one complete encoded value.
pub fn decode(buffer: &[u8]) -> (r: Result<Value, DecodeError>)
    ensures
        match dec(buffer@) {
            Some((v, n)) => if n == buffer@.len() {
                r matches Ok(x) && x@ == v && x@.wf()
            } else {
                r == Err::<Value, _>(DecodeError::WrongSize)
            },
            None => r == Err::<Value, _>(DecodeError::Invalid),
        },
{
    if buffer.len() == 0 {
        return Err(DecodeError::Invalid);
    }
    proof {
        assert(buffer@.skip(0) =~= buffer@);
        lemma_dec_wf(buffer@);
    }
    match decode_at(buffer, 0) {
        Ok((v, end)) => if end == buffer.len() {
            Ok(v)
        } else {
            Err(DecodeError::WrongSize)
        },
        Err(e) => Err(e),
    }
}

/// A complete value is determined by exactly the bytes the sizer counts:
/// any byte string that agrees on those bytes has the same size and
/// decodes to the same value, no matter what follows.
#[verifier::rlimit(100)]
#[verifier::spinoff_prover]
pub proof fn lemma_prefix_determines(b1: Seq<u8>, b2: Seq<u8>)
    requires
        value_size(b1) is Some,
        value_size(b1)->0 <= b1.len(),
        value_size(b1)->0 <= b2.len(),
        b2.subrange(0, value_size(b1)->0) == b1.subrange(0, value_size(b1)->0),
    ensures
        value_size(b2) == value_size(b1),
        dec(b2) == dec(b1),
    decreases b1.len(), 1int,
{
    let s = value_size(b1)->0;
    lemma_value_size_pos(b1);
    assert forall|i: int| 0 <= i < s implies b1[i] == b2[i] by {
        assert(b1.subrange(0, s)[i] == b1[i]);
        assert(b2.subrange(0, s)[i] == b2[i]);
    }
    let t = b1[0];
    if t == 0xcd || t == 0xd1 {
        assert(b1.subrange(1, 3) =~= b2.subrange(1, 3));
    } else if t == 0xca || t == 0xce || t == 0xd2 {
        assert(b1.subrange(1, 5) =~= b2.subrange(1, 5));
    } else if t == 0xcb || t == 0xcf || t == 0xd3 {
        assert(b1.subrange(1, 9) =~= b2.subrange(1, 9));
    } else if 0xa0 <= t && t <= 0xbf {
        let n = (t - 0xa0) as int;
        assert(b1.subrange(1, 1 + n) =~= b2.subrange(1, 1 + n));
    } else if t == 0xd9 || t == 0xc4 {
        let n = b1[1] as int;
        assert(b1.subrange(2, 2 + n) =~= b2.subrange(2, 2 + n));
    } else if t == 0xda || t == 0xc5 {
        assert(b1.subrange(1, 3) =~= b2.subrange(1, 3));
        let n = be_val(b1.subrange(1, 3)) as int;
        assert(b1.subrange(3, 3 + n) =~= b2.subrange(3, 3 + n));
    } else if t == 0xdb || t == 0xc6 {
        assert(b1.subrange(1, 5) =~= b2.subrange(1, 5));
        let n = be_val(b1.subrange(1, 5)) as int;
        assert(b1.subrange(5, 5 + n) =~= b2.subrange(5, 5 + n));
    } else if t == 0xd4 || t == 0xd5 || t == 0xd6 || t == 0xd7 || t == 0xd8 {
        assert(b1.subrange(2, s) =~= b2.subrange(2, s));
    } else if t == 0xc7 {
        let n = b1[1] as int;
        assert(b1.subrange(3, 3 + n) =~= b2.subrange(3, 3 + n));
    } else if t == 0xc8 {
        assert(b1.subrange(1, 3) =~= b2.subrange(1, 3));
        let n = be_val(b1.subrange(1, 3)) as int;
        assert(b1.subrange(4, 4 + n) =~= b2.subrange(4, 4 + n));
    } else if t == 0xc9 {
        assert(b1.subrange(1, 5) =~= b2.subrange(1, 5));
        let n = be_val(b1.subrange(1, 5)) as int;
        assert(b1.subrange(6, 6 + n) =~= b2.subrange(6, 6 + n));
    } else if 0x90 <= t && t <= 0x9f {
        crate::parsing::lemma_elems_size_bounds(b1.skip(1), (t - 0x90) as nat);
        prefix_determines_compound(b1, b2, s, 1, (t - 0x90) as nat);
    } else if t == 0xdc {
        crate::parsing::lemma_elems_size_bounds(b1.skip(3), be_val(b1.subrange(1, 3)));
        assert(b1.subrange(1, 3) =~= b2.subrange(1, 3));
        prefix_determines_compound(b1, b2, s, 3, be_val(b1.subrange(1, 3)));
    } else if t == 0xdd {
        crate::parsing::lemma_elems_size_bounds(b1.skip(5), be_val(b1.subrange(1, 5)));
        assert(b1.subrange(1, 5) =~= b2.subrange(1, 5));
        prefix_determines_compound(b1, b2, s, 5, be_val(b1.subrange(1, 5)));
    } else if 0x80 <= t && t <= 0x8f {
        crate::parsing::lemma_elems_size_bounds(b1.skip(1), 2 * ((t - 0x80) as nat));
        prefix_determines_compound(b1, b2, s, 1, 2 * ((t - 0x80) as nat));
    } else if t == 0xde {
        crate::parsing::lemma_elems_size_bounds(b1.skip(3), 2 * be_val(b1.subrange(1, 3)));
        assert(b1.subrange(1, 3) =~= b2.subrange(1, 3));
        prefix_determines_compound(b1, b2, s, 3, 2 * be_val(b1.subrange(1, 3)));
    } else if t == 0xdf {
        crate::parsing::lemma_elems_size_bounds(b1.skip(5), 2 * be_val(b1.subrange(1, 5)));
        assert(b1.subrange(1, 5) =~= b2.subrange(1, 5));
        prefix_determines_compound(b1, b2, s, 5, 2 * be_val(b1.subrange(1, 5)));
    }
}

/// The compound step of [`lemma_prefix_determines`]: passes the shared
/// prefix on to the elements after the header.
proof fn prefix_determines_compound(b1: Seq<u8>, b2: Seq<u8>, s: int, header: int, count: nat)
    requires
        value_size(b1) == Some(s),
        1 <= header <= s <= b1.len(),
        s <= b2.len(),
        b2.subrange(0, s) == b1.subrange(0, s),
        elems_size(b1.skip(header), count) == Some(s - header),
    ensures
        elems_size(b2.skip(header), count) == elems_size(b1.skip(header), count),
        dec_list(b2.skip(header), count) == dec_list(b1.skip(header), count),
    decreases b1.len(), 0int,
{
    let t1 = b1.skip(header);
    let t2 = b2.skip(header);
    assert(t2.subrange(0, s - header) =~= b2.subrange(header, s));
    assert(t1.subrange(0, s - header) =~= b1.subrange(header, s));
    assert forall|i: int| header <= i < s implies b1[i] == b2[i] by {
        assert(b1.subrange(0, s)[i] == b1[i]);
        assert(b2.subrange(0, s)[i] == b2[i]);
    }
    assert(b2.subrange(header, s) =~= b1.subrange(header, s));
    lemma_prefix_determines_list(t1, t2, count);
}

/// See [`lemma_prefix_determines`]: a complete run of values is likewise
/// determined by exactly the bytes the sizer counts for it.
#[verifier::rlimit(100)]
#[verifier::spinoff_prover]
pub proof fn lemma_prefix_determines_list(b1: Seq<u8>, b2: Seq<u8>, count: nat)
    requires
        elems_size(b1, count) is Some,
        elems_size(b1, count)->0 <= b2.len(),
        b2.subrange(0, elems_size(b1, count)->0) == b1.subrange(0, elems_size(b1, count)->0),
    ensures
        elems_size(b2, count) == elems_size(b1, count),
        dec_list(b2, count) == dec_list(b1, count),
    decreases b1.len(), 2int,
{
    crate::parsing::lemma_elems_size_bounds(b1, count);
    let total = elems_size(b1, count)->0;
    if count > 0 {
        let s1 = value_size(b1)->0;
        lemma_value_size_pos(b1);
        crate::parsing::lemma_elems_size_bounds(b1.skip(s1), (count - 1) as nat);
        assert(total == s1 + elems_size(b1.skip(s1), (count - 1) as nat)->0);
        assert(s1 <= total);
        assert(b2.subrange(0, s1) =~= b2.subrange(0, total).subrange(0, s1));
        assert(b1.subrange(0, s1) =~= b1.subrange(0, total).subrange(0, s1));
        lemma_prefix_determines(b1, b2);
        lemma_dec_bounds(b1);
        lemma_dec_value_size(b1);
        let r1 = b1.skip(s1);
        let r2 = b2.skip(s1);
        assert forall|i: int| 0 <= i < total implies b1[i] == b2[i] by {
            assert(b1.subrange(0, total)[i] == b1[i]);
            assert(b2.subrange(0, total)[i] == b2[i]);
        }
        assert(r2.subrange(0, total - s1) =~= r1.subrange(0, total - s1));
        lemma_prefix_determines_list(r1, r2, (count - 1) as nat);
    }
}

/// Appends the `width`-byte big-endian encoding of `n`.
fn write_be(out: &mut Vec<u8>, n: u64, width: usize)
    requires
        width <= 8,
    ensures
        final(out)@ == old(out)@ + be_bytes(n as nat, width as nat),
    decreases width,
{
    if width == 0 {
        proof {
            assert(old(out)@ + be_bytes(n as nat, 0) =~= old(out)@);
        }
    } else {
        write_be(out, n / 256, width - 1);
        out.push((n % 256) as u8);
        proof {
            assert((n / 256) as nat == (n as nat) / 256);
            assert(old(out)@ + be_bytes((n as nat) / 256, (width - 1) as nat) + seq![
                (((n as nat) % 256) as u8),
            ] =~= old(out)@ + be_bytes(n as nat, width as nat));
        }
    }
}

/// Appends a payload byte for byte.
fn push_bytes(out: &mut Vec<u8>, payload: &Vec<u8>)
    ensures
        final(out)@ == old(out)@ + payload@,
{
    let mut j: usize = 0;
    while j < payload.len()
        invariant
            j <= payload@.len(),
            out@ == old(out)@ + payload@.subrange(0, j as int),
        decreases payload@.len() - j,
    {
        let b = payload[j];
        out.push(b);
        proof {
            assert((old(out)@ + payload@.subrange(0, j as int)).push(payload@[j as int])
                =~= old(out)@ + payload@.subrange(0, j + 1));
        }
        j = j + 1;
    }
    proof {
        assert(payload@.subrange(0, payload@.len() as int) =~= payload@);
    }
}

/// Encoding one more value extends the encoding of a run of values.
pub proof fn lemma_wire_list_take(s: Seq<ValueV>, i: int)
    requires
        0 <= i < s.len(),
    ensures
        wire_list(s.take(i + 1)) == wire_list(s.take(i)) + s[i].wire(),
    decreases i,
{
    if i == 0 {
        assert(s.take(1) =~= seq![s[0]]);
        assert(s.take(0) =~= Seq::<ValueV>::empty());
        assert(seq![s[0]].drop_first() =~= Seq::<ValueV>::empty());
        assert(wire_list(s.take(0)) + s[0].wire() =~= s[0].wire() + wire_list(
            Seq::<ValueV>::empty(),
        ));
    } else {
        lemma_wire_list_take(s.drop_first(), i - 1);
        assert(s.take(i + 1).drop_first() =~= s.drop_first().take(i));
        assert(s.take(i).drop_first() =~= s.drop_first().take(i - 1));
        assert(s.take(i + 1)[0] == s[0]);
        assert(s.take(i)[0] == s[0]);
        assert(s.drop_first()[i - 1] == s[i]);
        assert((s[0].wire() + wire_list(s.drop_first().take(i - 1))) + s[i].wire() =~= s[0].wire()
            + (wire_list(s.drop_first().take(i - 1)) + s[i].wire()));
    }
}

/// Encoding one more pair extends the encoding of a run of pairs.
pub proof fn lemma_wire_pairs_take(ps: Seq<(ValueV, ValueV)>, i: int)
    requires
        0 <= i < ps.len(),
    ensures
        wire_pairs(ps.take(i + 1)) == wire_pairs(ps.take(i)) + ps[i].0.wire() + ps[i].1.wire(),
    decreases i,
{
    if i == 0 {
        assert(ps.take(1) =~= seq![ps[0]]);
        assert(ps.take(0) =~= Seq::<(ValueV, ValueV)>::empty());
        assert(seq![ps[0]].drop_first() =~= Seq::<(ValueV, ValueV)>::empty());
        assert(wire_pairs(ps.take(0)) + ps[0].0.wire() + ps[0].1.wire() =~= ps[0].0.wire()
            + ps[0].1.wire() + wire_pairs(Seq::<(ValueV, ValueV)>::empty()));
    } else {
        lemma_wire_pairs_take(ps.drop_first(), i - 1);
        assert(ps.take(i + 1).drop_first() =~= ps.drop_first().take(i));
        assert(ps.take(i).drop_first() =~= ps.drop_first().take(i - 1));
        assert(ps.take(i + 1)[0] == ps[0]);
        assert(ps.take(i)[0] == ps[0]);
        assert(ps.drop_first()[i - 1] == ps[i]);
        assert((ps[0].0.wire() + ps[0].1.wire() + wire_pairs(ps.drop_first().take(i - 1)))
            + ps[i].0.wire() + ps[i].1.wire() =~= ps[0].0.wire() + ps[0].1.wire() + (wire_pairs(
            ps.drop_first().take(i - 1),
        ) + ps[i].0.wire() + ps[i].1.wire()));
    }
}

/// Appends the canonical encoding of a well-formed value.
#[verifier::rlimit(100)]
#[verifier::loop_isolation(false)]
pub(crate) fn encode_into(value: &Value, out: &mut Vec<u8>)
    requires
        value@.wf(),
    ensures
        final(out)@ == old(out)@ + value@.wire(),
    decreases value,
{
    match value {
        Value::Nil => {
            out.push(0xc0);
            proof {
                assert(out@ =~= old(out)@ + value@.wire());
            }
        },
        Value::Bool(x) => {
            if *x {
                out.push(0xc3);
            } else {
                out.push(0xc2);
            }
            proof {
                assert(out@ =~= old(out)@ + value@.wire());
            }
        },
        Value::UInt(n) => {
            let nv = *n;
            if nv <= 0x7f {
                out.push(nv as u8);
            } else if nv <= 0xff {
                out.push(0xcc);
                write_be(out, nv, 1);
            } else if nv <= 0xffff {
                out.push(0xcd);
                write_be(out, nv, 2);
            } else if nv <= 0xffffffff {
                out.push(0xce);
                write_be(out, nv, 4);
            } else {
                out.push(0xcf);
                write_be(out, nv, 8);
            }
            proof {
                assert(out@ =~= old(out)@ + value@.wire());
            }
        },
        Value::Int(i) => {
            let iv = *i;
            if iv >= -32 {
                out.push((iv + 256) as u8);
                proof {
                    assert((iv + 256) % 256 == iv + 256);
                }
            } else if iv >= -128 {
                out.push(0xd0);
                write_be(out, (iv + 256) as u64, 1);
            } else if iv >= -32768 {
                out.push(0xd1);
                write_be(out, (iv + 65536) as u64, 2);
            } else if iv >= -2147483648 {
                out.push(0xd2);
                write_be(out, (iv + 4294967296) as u64, 4);
            } else {
                out.push(0xd3);
                let offset = u64::MAX - ((-(iv + 1)) as u64);
                proof {
                    assert(offset as int == iv + 0x10000000000000000);
                }
                write_be(out, offset, 8);
            }
            proof {
                assert(out@ =~= old(out)@ + value@.wire());
            }
        },
        Value::F32(bits) => {
            out.push(0xca);
            write_be(out, *bits as u64, 4);
            proof {
                assert(out@ =~= old(out)@ + value@.wire());
            }
        },
        Value::F64(bits) => {
            out.push(0xcb);
            write_be(out, *bits, 8);
            proof {
                assert(out@ =~= old(out)@ + value@.wire());
            }
        },
        Value::Str(payload) => {
            let n = payload.len();
            if n <= 31 {
                out.push((0xa0 + n) as u8);
            } else if n <= 0xff {
                out.push(0xd9);
                write_be(out, n as u64, 1);
            } else if n <= 0xffff {
                out.push(0xda);
                write_be(out, n as u64, 2);
            } else {
                out.push(0xdb);
                write_be(out, n as u64, 4);
            }
            push_bytes(out, payload);
            proof {
                assert(out@ =~= old(out)@ + value@.wire());
            }
        },
        Value::Bin(payload) => {
            let n = payload.len();
            if n <= 0xff {
                out.push(0xc4);
                write_be(out, n as u64, 1);
            } else if n <= 0xffff {
                out.push(0xc5);
                write_be(out, n as u64, 2);
            } else {
                out.push(0xc6);
                write_be(out, n as u64, 4);
            }
            push_bytes(out, payload);
            proof {
                assert(out@ =~= old(out)@ + value@.wire());
            }
        },
        Value::Ext(tag, payload) => {
            let n = payload.len();
            let tb: u8 = if *tag >= 0 {
                *tag as u8
            } else {
                ((*tag as i32) + 256) as u8
            };
            proof {
                assert(tb == i8_byte(*tag));
            }
            if n == 1 {
                out.push(0xd4);
                out.push(tb);
            } else if n == 2 {
                out.push(0xd5);
                out.push(tb);
            } else if n == 4 {
                out.push(0xd6);
                out.push(tb);
            } else if n == 8 {
                out.push(0xd7);
                out.push(tb);
            } else if n == 16 {
                out.push(0xd8);
                out.push(tb);
            } else if n <= 0xff {
                out.push(0xc7);
                write_be(out, n as u64, 1);
                out.push(tb);
            } else if n <= 0xffff {
                out.push(0xc8);
                write_be(out, n as u64, 2);
                out.push(tb);
            } else {
                out.push(0xc9);
                write_be(out, n as u64, 4);
                out.push(tb);
            }
            push_bytes(out, payload);
            proof {
                assert(out@ =~= old(out)@ + value@.wire());
            }
        },
        Value::Array(items) => {
            proof {
                lemma_view_list_index(items@);
            }
            let n = items.len();
            if n <= 15 {
                out.push((0x90 + n) as u8);
            } else if n <= 0xffff {
                out.push(0xdc);
                write_be(out, n as u64, 2);
            } else {
                out.push(0xdd);
                write_be(out, n as u64, 4);
            }
            let ghost header_done = out@;
            let mut i: usize = 0;
            while i < n
                invariant
                    i <= n,
                    n == items@.len(),
                    out@ == header_done + wire_list(view_list(items@).take(i as int)),
                    view_list(items@).len() == items@.len(),
                    forall|j: int|
                        0 <= j < items@.len() ==> view_list(items@)[j] == #[trigger] items@[j]@,
                    forall|j: int|
                        0 <= j < items@.len() ==> (#[trigger] view_list(items@)[j]).wf(),
                    *value == Value::Array(*items),
                decreases n - i,
            {
                encode_into(&items[i], out);
                proof {
                    lemma_wire_list_take(view_list(items@), i as int);
                    assert((header_done + wire_list(view_list(items@).take(i as int)))
                        + items@[i as int]@.wire() =~= header_done + (wire_list(
                        view_list(items@).take(i as int),
                    ) + view_list(items@)[i as int].wire()));
                }
                i = i + 1;
            }
            proof {
                assert(view_list(items@).take(n as int) =~= view_list(items@));
                assert(out@ =~= old(out)@ + value@.wire());
            }
        },
        Value::Dict(pairs) => {
            proof {
                lemma_view_pairs_index(pairs@);
            }
            let n = pairs.len();
            if n <= 15 {
                out.push((0x80 + n) as u8);
            } else if n <= 0xffff {
                out.push(0xde);
                write_be(out, n as u64, 2);
            } else {
                out.push(0xdf);
                write_be(out, n as u64, 4);
            }
            let ghost header_done = out@;
            let mut i: usize = 0;
            while i < n
                invariant
                    i <= n,
                    n == pairs@.len(),
                    out@ == header_done + wire_pairs(view_pairs(pairs@).take(i as int)),
                    view_pairs(pairs@).len() == pairs@.len(),
                    forall|j: int|
                        0 <= j < pairs@.len() ==> view_pairs(pairs@)[j] == (
                        #[trigger] pairs@[j].0@,
                        pairs@[j].1@,
                        ),
                    forall|j: int|
                        0 <= j < pairs@.len() ==> (#[trigger] view_pairs(pairs@)[j]).0.wf()
                            && view_pairs(pairs@)[j].1.wf(),
                    *value == Value::Dict(*pairs),
                decreases n - i,
            {
                proof {
                    assert(decreases_to!(Value::Dict(*pairs) => *pairs));
                    assert(decreases_to!(*pairs => pairs@));
                    assert(decreases_to!(pairs@ => pairs@[i as int]));
                    assert(decreases_to!(pairs@[i as int] => pairs@[i as int].0));
                    assert(decreases_to!(pairs@[i as int] => pairs@[i as int].1));
                }
                let entry = &pairs[i];
                encode_into(&entry.0, out);
                encode_into(&entry.1, out);
                proof {
                    lemma_wire_pairs_take(view_pairs(pairs@), i as int);
                    assert(((header_done + wire_pairs(view_pairs(pairs@).take(i as int)))
                        + pairs@[i as int].0@.wire()) + pairs@[i as int].1@.wire() =~= header_done
                        + (wire_pairs(view_pairs(pairs@).take(i as int)) + view_pairs(pairs@)[
                        i as int].0.wire() + view_pairs(pairs@)[i as int].1.wire()));
                }
                i = i + 1;
            }
            proof {
                assert(view_pairs(pairs@).take(n as int) =~= view_pairs(pairs@));
                assert(out@ =~= old(out)@ + value@.wire());
            }
        },
    }
}

/// Marker for message protocols carried over the codec.
pub trait Protocol {}

/// The framing codec: encodes one value at a time into a byte sink and
/// takes complete values off the front of a growing byte buffer.
pub struct MsgPackCodec {}

impl MsgPackCodec {
    /// Appends the canonical encoding of a well-formed value to `dst`.
    pub fn encode(&self, item: &Value, dst: &mut Vec<u8>)
        requires
            item@.wf(),
        ensures
            final(dst)@ == old(dst)@ + item@.wire(),
    {
        encode_into(item, dst);
    }

    /// Takes one complete value off the front of `src`. While the buffer
    /// holds no complete value, returns `Ok(None)` and leaves it alone;
    /// once the sizer judges a value complete, those bytes are consumed
    /// and the value (or the decode error) is surfaced.
    pub fn decode(&self, src: &mut Vec<u8>) -> (r: Result<Option<Value>, DecodeError>)
        ensures
            match value_size(old(src)@) {
                None => r == Ok::<Option<Value>, DecodeError>(None) && final(src)@ == old(src)@,
                Some(s) => if s > old(src)@.len() {
                    r == Ok::<Option<Value>, DecodeError>(None) && final(src)@ == old(src)@
                } else {
                    final(src)@ == old(src)@.skip(s) && match dec(old(src)@.subrange(0, s)) {
                        Some((v, n)) => if n == s {
                            r matches Ok(Some(x)) && x@ == v
                        } else {
                            r == Err::<Option<Value>, _>(DecodeError::WrongSize)
                        },
                        None => r == Err::<Option<Value>, _>(DecodeError::Invalid),
                    }
                },
            },
    {
        let ghost b0 = src@;
        let n0 = src.len();
        if n0 == 0 {
            return Ok(None);
        }
        proof {
            crate::parsing::lemma_value_size_pos(b0);
        }
        let sl = src.as_slice();
        let size = match crate::parsing::get_value_size(sl) {
            Some(s) => s,
            None => {
                proof {
                    assert(b0.len() <= usize::MAX);
                    assert(value_size(b0) matches Some(s) ==> s > b0.len());
                }
                return Ok(None);
            },
        };
        if src.len() < size {
            return Ok(None);
        }
        let rest = src.split_off(size);
        proof {
            assert(src@ == b0.subrange(0, size as int));
            assert(rest@ == b0.subrange(size as int, b0.len() as int));
            assert(b0.subrange(size as int, b0.len() as int) =~= b0.skip(size as int));
        }
        let out = decode(src.as_slice());
        *src = rest;
        proof {
            assert(src@ == b0.skip(size as int));
        }
        match out {
            Ok(v) => Ok(Some(v)),
            Err(e) => Err(e),
        }
    }
}

} // verus!
