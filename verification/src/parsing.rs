//! Sizing of encoded values and the incremental stream parser.
//!
//! The sizer answers one question without allocating or decoding: how many
//! leading bytes of a buffer make up one complete encoded value? Compound
//! values are sized by recursively summing the sizes of their elements;
//! whenever an element cannot yet be sized, or would extend past the
//! visible buffer, the whole value reports "insufficient data".

use vstd::prelude::*;

use crate::value::{be_val, Value};

verus! {

/// The exact byte length of the single encoded value at the head of `b`,
/// or `None` when `b` is too short to determine it. This is the
/// mathematical form of [`get_value_size`]; every tag byte is given a
/// size, so a structurally invalid buffer is a decode-time error, never a
/// size error.
pub open spec fn value_size(b: Seq<u8>) -> Option<int>
    decreases b.len(), 0int,
{
    if b.len() == 0 {
        None
    } else {
        let t = b[0];
        if t <= 0x7f || (0xc0 <= t && t <= 0xc3) || 0xe0 <= t {
            Some(1int)
        } else if t == 0xcc || t == 0xd0 {
            Some(2int)
        } else if t == 0xcd || t == 0xd1 {
            Some(3int)
        } else if t == 0xca || t == 0xce || t == 0xd2 {
            Some(5int)
        } else if t == 0xcb || t == 0xcf || t == 0xd3 {
            Some(9int)
        } else if 0xa0 <= t && t <= 0xbf {
            Some(1 + (t - 0xa0))
        } else if t == 0xd9 || t == 0xc4 {
            if b.len() < 2 {
                None
            } else {
                Some(2 + b[1] as int)
            }
        } else if t == 0xda || t == 0xc5 {
            if b.len() < 3 {
                None
            } else {
                Some(3 + be_val(b.subrange(1, 3)) as int)
            }
        } else if t == 0xdb || t == 0xc6 {
            if b.len() < 5 {
                None
            } else {
                Some(5 + be_val(b.subrange(1, 5)) as int)
            }
        } else if t == 0xd4 {
            Some(3int)
        } else if t == 0xd5 {
            Some(4int)
        } else if t == 0xd6 {
            Some(6int)
        } else if t == 0xd7 {
            Some(10int)
        } else if t == 0xd8 {
            Some(18int)
        } else if t == 0xc7 {
            if b.len() < 2 {
                None
            } else {
                Some(3 + b[1] as int)
            }
        } else if t == 0xc8 {
            if b.len() < 3 {
                None
            } else {
                Some(4 + be_val(b.subrange(1, 3)) as int)
            }
        } else if t == 0xc9 {
            if b.len() < 5 {
                None
            } else {
                Some(6 + be_val(b.subrange(1, 5)) as int)
            }
        } else if 0x90 <= t && t <= 0x9f {
            compound_size(elems_size(b.skip(1), (t - 0x90) as nat), 1)
        } else if t == 0xdc {
            if b.len() < 3 {
                None
            } else {
                compound_size(elems_size(b.skip(3), be_val(b.subrange(1, 3))), 3)
            }
        } else if t == 0xdd {
            if b.len() < 5 {
                None
            } else {
                compound_size(elems_size(b.skip(5), be_val(b.subrange(1, 5))), 5)
            }
        } else if 0x80 <= t && t <= 0x8f {
            compound_size(elems_size(b.skip(1), 2 * ((t - 0x80) as nat)), 1)
        } else if t == 0xde {
            if b.len() < 3 {
                None
            } else {
                compound_size(elems_size(b.skip(3), 2 * be_val(b.subrange(1, 3))), 3)
            }
        } else {
            if b.len() < 5 {
                None
            } else {
                compound_size(elems_size(b.skip(5), 2 * be_val(b.subrange(1, 5))), 5)
            }
        }
    }
}

/// Adds a compound value's header length to the total size of its
/// elements, propagating "insufficient data".
pub open spec fn compound_size(elems: Option<int>, header: int) -> Option<int> {
    match elems {
        Some(t) => Some(header + t),
        None => None,
    }
}

/// The total byte length of `count` consecutive encoded values at the
/// head of `b`: `None` as soon as one of them cannot yet be sized or
/// would extend past the buffer, so a `Some` total never exceeds
/// `b.len()`.
pub open spec fn elems_size(b: Seq<u8>, count: nat) -> Option<int>
    decreases b.len(), count + 1,
{
    if count == 0 {
        Some(0int)
    } else if b.len() == 0 {
        None
    } else {
        match value_size(b) {
            Some(s) => if 1 <= s && s <= b.len() {
                match elems_size(b.skip(s), (count - 1) as nat) {
                    Some(rest) => Some(s + rest),
                    None => None,
                }
            } else {
                None
            },
            None => None,
        }
    }
}

/// A sized value always occupies at least its tag byte.
pub proof fn lemma_value_size_pos(b: Seq<u8>)
    ensures
        value_size(b) is Some ==> value_size(b)->0 >= 1,
{
    if b.len() > 0 {
        lemma_elems_size_bounds(b.skip(1), ((b[0] - 0x90) as nat));
        lemma_elems_size_bounds(b.skip(1), (2 * ((b[0] - 0x80) as nat)) as nat);
        if b.len() >= 3 {
            lemma_elems_size_bounds(b.skip(3), be_val(b.subrange(1, 3)));
            lemma_elems_size_bounds(b.skip(3), (2 * be_val(b.subrange(1, 3))) as nat);
        }
        if b.len() >= 5 {
            lemma_elems_size_bounds(b.skip(5), be_val(b.subrange(1, 5)));
            lemma_elems_size_bounds(b.skip(5), (2 * be_val(b.subrange(1, 5))) as nat);
        }
    }
}

/// Elements are sized strictly within the buffer, and each takes at least
/// one byte, so a compound total never reaches past the bytes actually
/// seen and never undercounts its elements.
pub proof fn lemma_elems_size_bounds(b: Seq<u8>, count: nat)
    ensures
        elems_size(b, count) is Some ==> count <= elems_size(b, count)->0 <= b.len(),
    decreases b.len(), count,
{
    if count > 0 && b.len() > 0 {
        match value_size(b) {
            Some(s) => {
                if 1 <= s && s <= b.len() {
                    lemma_elems_size_bounds(b.skip(s), (count - 1) as nat);
                }
            },
            None => {},
        }
    }
}

/// The width of a big-endian length field that follows a tag byte.
enum DataSize {
    S8,
    S16,
    S32,
}

/// Reads the big-endian length field that starts right after the tag byte.
fn get_be_size(buffer: &[u8], size_type: DataSize) -> (r: usize)
    requires
        buffer@.len() >= match size_type {
            DataSize::S8 => 2int,
            DataSize::S16 => 3int,
            DataSize::S32 => 5int,
        },
    ensures
        r == match size_type {
            DataSize::S8 => buffer@[1] as int,
            DataSize::S16 => be_val(buffer@.subrange(1, 3)) as int,
            DataSize::S32 => be_val(buffer@.subrange(1, 5)) as int,
        },
        r <= match size_type {
            DataSize::S8 => 0xFFint,
            DataSize::S16 => 0xFFFFint,
            DataSize::S32 => 0xFFFFFFFFint,
        },
{
    match size_type {
        DataSize::S8 => {
            let r = buffer[1] as usize;
            proof {
                reveal_with_fuel(be_val, 2);
                let s = buffer@.subrange(1, 2);
                assert(s.drop_last() =~= buffer@.subrange(1, 1));
                assert(be_val(s) == buffer@[1]);
            }
            r
        },
        DataSize::S16 => {
            let r = (buffer[1] as usize) * 256 + buffer[2] as usize;
            proof {
                reveal_with_fuel(be_val, 3);
                let s = buffer@.subrange(1, 3);
                assert(s.drop_last() =~= buffer@.subrange(1, 2));
                assert(s.drop_last().drop_last() =~= buffer@.subrange(1, 1));
                assert(be_val(s) == (buffer@[1] * 256 + buffer@[2]));
            }
            r
        },
        DataSize::S32 => {
            let r = ((buffer[1] as usize) * 256 + buffer[2] as usize) * 65536
                + (buffer[3] as usize) * 256 + buffer[4] as usize;
            proof {
                reveal_with_fuel(be_val, 5);
                let s = buffer@.subrange(1, 5);
                assert(s.drop_last() =~= buffer@.subrange(1, 4));
                assert(s.drop_last().drop_last() =~= buffer@.subrange(1, 3));
                assert(s.drop_last().drop_last().drop_last() =~= buffer@.subrange(1, 2));
                assert(s.drop_last().drop_last().drop_last().drop_last() =~= buffer@.subrange(
                    1,
                    1,
                ));
                assert(be_val(s) == ((buffer@[1] * 256 + buffer@[2]) * 256 + buffer@[3]) * 256
                    + buffer@[4]);
            }
            r
        },
    }
}

/// Sums the sizes of `count` consecutive elements that start `skip` bytes
/// into `buffer`, per the compound-sizing rule: `None` as soon as an
/// element cannot yet be sized or would extend past the buffer.
pub fn size_compound(buffer: &[u8], count: usize, skip: usize) -> (r: Option<usize>)
    requires
        1 <= skip <= buffer@.len(),
    ensures
        r == match elems_size(buffer@.skip(skip as int), count as nat) {
            Some(t) => Some((skip + t) as usize),
            None => None::<usize>,
        },
        r is Some ==> skip <= r->0 <= buffer@.len(),
        elems_size(buffer@.skip(skip as int), count as nat) matches Some(t) ==> skip + t
            <= buffer@.len(),
    decreases buffer@.len(), 0int,
{
    let mut sized_elements: usize = 0;
    let mut size: usize = skip;

    while sized_elements < count
        invariant
            1 <= skip <= size <= buffer@.len(),
            sized_elements <= count,
            elems_size(buffer@.skip(skip as int), count as nat) == match elems_size(
                buffer@.skip(size as int),
                (count - sized_elements) as nat,
            ) {
                Some(t) => Some(size - skip + t),
                None => None::<int>,
            },
        decreases count - sized_elements,
    {
        if buffer.len() <= size {
            proof {
                assert(buffer@.skip(size as int).len() == 0);
            }
            return None;
        }

        let tail = vstd::slice::slice_subrange(buffer, size, buffer.len());
        match get_value_size(tail) {
            Some(s) => {
                proof {
                    lemma_value_size_pos(tail@);
                }
                if s > buffer.len() - size {
                    return None;
                }
                proof {
                    assert(buffer@.skip(size as int).skip(s as int) =~= buffer@.skip(
                        size + s as int,
                    ));
                }
                size = size + s;
            },
            None => {
                return None;
            },
        }

        sized_elements = sized_elements + 1;
    }

    Some(size)
}

/// Computes the exact byte length of the single encoded value that starts
/// at the head of `buffer`, or `None` when the buffer is still too short
/// to determine it. Invalid tag bytes are a decode-time concern: every tag
/// is given a size.
pub fn get_value_size(buffer: &[u8]) -> (r: Option<usize>)
    requires
        buffer@.len() >= 1,
    ensures
        r == match value_size(buffer@) {
            Some(s) => if s <= usize::MAX {
                Some(s as usize)
            } else {
                None::<usize>
            },
            None => None::<usize>,
        },
    decreases buffer@.len(), 1int,
{
    let buffer_len = buffer.len();
    proof {
        assert(buffer_len <= usize::MAX);
    }
    let t = buffer[0];

    // *Number*
    // fixint | nil | (reserved) | boolean | negative fixint
    if t <= 0x7f || (0xc0 <= t && t <= 0xc3) || 0xe0 <= t {
        Some(1)
    } else if t == 0xcc || t == 0xd0 {
        // 8-bit: uint | int
        Some(2)
    } else if t == 0xcd || t == 0xd1 {
        // 16-bit: uint | int
        Some(3)
    } else if t == 0xca || t == 0xce || t == 0xd2 {
        // 32-bit: float | uint | int
        Some(5)
    } else if t == 0xcb || t == 0xcf || t == 0xd3 {
        // 64-bit: float | uint | int
        Some(9)
    } else if 0xa0 <= t && t <= 0xbf {
        // *String or Binary*
        // fixstring
        Some(1 + (t - 0xa0) as usize)
    } else if t == 0xd9 || t == 0xc4 {
        // 8-bit size: str | bin
        if buffer.len() < 2 {
            None
        } else {
            checked_size(2, get_be_size(buffer, DataSize::S8))
        }
    } else if t == 0xda || t == 0xc5 {
        // 16-bit size: str | bin
        if buffer.len() < 3 {
            None
        } else {
            checked_size(3, get_be_size(buffer, DataSize::S16))
        }
    } else if t == 0xdb || t == 0xc6 {
        // 32-bit size: str | bin
        if buffer.len() < 5 {
            None
        } else {
            checked_size(5, get_be_size(buffer, DataSize::S32))
        }
    } else if t == 0xd4 {
        // *Ext*
        // fixext(1)
        Some(3)
    } else if t == 0xd5 {
        // fixext(2)
        Some(4)
    } else if t == 0xd6 {
        // fixext(4)
        Some(6)
    } else if t == 0xd7 {
        // fixext(8)
        Some(10)
    } else if t == 0xd8 {
        // fixext(16)
        Some(18)
    } else if t == 0xc7 {
        // ext(8)
        if buffer.len() < 2 {
            None
        } else {
            checked_size(3, get_be_size(buffer, DataSize::S8))
        }
    } else if t == 0xc8 {
        // ext(16)
        if buffer.len() < 3 {
            None
        } else {
            checked_size(4, get_be_size(buffer, DataSize::S16))
        }
    } else if t == 0xc9 {
        // ext(32)
        if buffer.len() < 5 {
            None
        } else {
            checked_size(6, get_be_size(buffer, DataSize::S32))
        }
    } else if 0x90 <= t && t <= 0x9f {
        // *Array*
        // fixarray
        size_compound(buffer, (t - 0x90) as usize, 1)
    } else if t == 0xdc {
        // array(16)
        if buffer.len() < 3 {
            None
        } else {
            size_compound(buffer, get_be_size(buffer, DataSize::S16), 3)
        }
    } else if t == 0xdd {
        // array(32)
        if buffer.len() < 5 {
            None
        } else {
            size_compound(buffer, get_be_size(buffer, DataSize::S32), 5)
        }
    } else if 0x80 <= t && t <= 0x8f {
        // *Map*
        // fixmap
        size_compound(buffer, (t - 0x80) as usize * 2, 1)
    } else if t == 0xde {
        // map(16)
        if buffer.len() < 3 {
            None
        } else {
            size_compound(buffer, get_be_size(buffer, DataSize::S16) * 2, 3)
        }
    } else {
        // map(32)
        if buffer.len() < 5 {
            None
        } else {
            let n = get_be_size(buffer, DataSize::S32);
            let c: u64 = (n as u64) * 2;
            if c > (buffer.len() - 5) as u64 {
                proof {
                    lemma_elems_size_bounds(
                        buffer@.skip(5),
                        (2 * be_val(buffer@.subrange(1, 5))) as nat,
                    );
                }
                None
            } else {
                size_compound(buffer, c as usize, 5)
            }
        }
    }
}

/// Adds a header length to a payload length, reporting sizes that no
/// buffer on this host could hold as "insufficient data".
fn checked_size(header: usize, payload: usize) -> (r: Option<usize>)
    requires
        header <= 6,
        payload <= 0xFFFFFFFF,
    ensures
        r == if header + payload <= usize::MAX {
            Some((header + payload) as usize)
        } else {
            None::<usize>
        },
{
    let total: u64 = header as u64 + payload as u64;
    if total <= usize::MAX as u64 {
        Some(total as usize)
    } else {
        None
    }
}

/// Encodes a well-formed value into its canonical byte string.
pub fn encode_value(value: &Value) -> (r: Vec<u8>)
    requires
        value@.wf(),
    ensures
        r@ == value@.wire(),
{
    let mut out: Vec<u8> = Vec::new();
    crate::codec::encode_into(value, &mut out);
    proof {
        assert(Seq::<u8>::empty() + value@.wire() =~= value@.wire());
    }
    out
}

/// The sizer never over-reads: a value it judges complete within a
/// buffer is fully determined by exactly the bytes it counted, so its
/// size never reaches past the buffer it was computed against.
pub proof fn lemma_sizer_no_over_read(b: Seq<u8>)
    requires
        value_size(b) is Some,
        value_size(b)->0 <= b.len(),
    ensures
        value_size(b.subrange(0, value_size(b)->0)) == value_size(b),
{
    let s = value_size(b)->0;
    lemma_value_size_pos(b);
    assert(b.subrange(0, s).subrange(0, s) =~= b.subrange(0, s));
    crate::codec::lemma_prefix_determines(b, b.subrange(0, s));
}

/// The byte length of the first complete value in `b`, if the sizer can
/// already delimit one.
pub open spec fn first_complete(b: Seq<u8>) -> Option<int> {
    match value_size(b) {
        Some(s) => if s <= b.len() {
            Some(s)
        } else {
            None
        },
        None => None,
    }
}

/// All the values the stream of bytes `b` yields, in order, stopping at
/// the first incomplete or invalid value.
pub open spec fn drained(b: Seq<u8>) -> Seq<crate::value::ValueV>
    decreases b.len(),
{
    match first_complete(b) {
        Some(s) => match crate::codec::dec(b) {
            Some((v, n)) => if 1 <= n <= b.len() {
                seq![v] + drained(b.skip(n))
            } else {
                Seq::empty()
            },
            None => Seq::empty(),
        },
        None => Seq::empty(),
    }
}

/// The bytes still held once `drained` has stopped.
pub open spec fn leftover(b: Seq<u8>) -> Seq<u8>
    decreases b.len(),
{
    match first_complete(b) {
        Some(s) => match crate::codec::dec(b) {
            Some((v, n)) => if 1 <= n <= b.len() {
                leftover(b.skip(n))
            } else {
                b
            },
            None => b,
        },
        None => b,
    }
}

/// Fragmentation independence: feeding a byte stream in two chunks
/// yields exactly the values of feeding it whole — first whatever the
/// first chunk completes, then whatever the residue plus the second
/// chunk completes — and the same residue.
pub proof fn lemma_fragmentation(b1: Seq<u8>, b2: Seq<u8>)
    ensures
        drained(b1 + b2) == drained(b1) + drained(leftover(b1) + b2),
        leftover(b1 + b2) == leftover(leftover(b1) + b2),
    decreases b1.len(),
{
    let whole = b1 + b2;
    match first_complete(b1) {
        None => {
            assert(leftover(b1) == b1);
            assert(leftover(b1) + b2 =~= whole);
            assert(drained(b1) + drained(whole) =~= drained(whole));
        },
        Some(s) => {
            lemma_value_size_pos(b1);
            assert(whole.subrange(0, s) =~= b1.subrange(0, s));
            crate::codec::lemma_prefix_determines(b1, whole);
            match crate::codec::dec(b1) {
                None => {
                    assert(drained(b1) + drained(whole) =~= drained(whole));
                    assert(leftover(b1) + b2 =~= whole);
                },
                Some((v, n)) => {
                    crate::codec::lemma_dec_bounds(b1);
                    crate::codec::lemma_dec_value_size(b1);
                    assert(whole.skip(n) =~= b1.skip(n) + b2);
                    lemma_fragmentation(b1.skip(n), b2);
                    assert(seq![v] + (drained(b1.skip(n)) + drained(
                        leftover(b1.skip(n)) + b2,
                    )) =~= (seq![v] + drained(b1.skip(n))) + drained(leftover(b1.skip(n)) + b2));
                },
            }
        },
    }
}

/// A single well-formed value's encoding drains to exactly that value,
/// with nothing left behind: the stream view of the parser agrees with
/// the codec's round trip.
pub proof fn lemma_drained_round_trip(v: crate::value::ValueV)
    requires
        v.wf(),
    ensures
        drained(v.wire()) == seq![v],
        leftover(v.wire()) == Seq::<u8>::empty(),
{
    crate::codec::lemma_round_trip(v);
    crate::codec::lemma_dec_value_size(v.wire());
    let n = v.wire().len() as int;
    assert(v.wire().skip(n) =~= Seq::<u8>::empty());
    assert(seq![v] + drained(Seq::<u8>::empty()) =~= seq![v]);
    assert(leftover(Seq::<u8>::empty()) == Seq::<u8>::empty());
}

/// One poll of the connection's byte source, as the parser sees it.
pub enum ReadEvent {
    /// Freshly read bytes.
    Data(Vec<u8>),
    /// The source reported zero bytes read: it has closed for good.
    Closed,
    /// The source has no data yet; the caller must retry later.
    Pending,
}

/// What one parser step yields.
#[derive(Debug, PartialEq)]
pub enum PollNext {
    /// A complete value arrived.
    Ready(Value),
    /// The stream is over and stays over.
    End,
    /// The source had no data; the caller retries later.
    Pending,
    /// Bytes were buffered but no value is complete yet: read again.
    More,
    /// The bytes of a complete value were structurally invalid; the
    /// stream ends here.
    Failed(crate::codec::DecodeError),
}

/// The incremental stream parser: buffers whatever fragments arrive and
/// yields each value as soon as its bytes are complete. Once it reports
/// the end of the stream it stays ended, whatever else is fed in.
pub struct MsgPackParser {
    /// Bytes read from the source but not yet consumed by a value.
    pub unparsed_buffer: Vec<u8>,
    /// Whether the stream has ended: the source closed, or a decode
    /// error ended it.
    pub done: bool,
}

impl MsgPackParser {
    /// A parser with nothing buffered, ready for its first bytes.
    pub fn new() -> (r: Self)
        ensures
            r.unparsed_buffer@ == Seq::<u8>::empty(),
            !r.done,
    {
        Self { unparsed_buffer: Vec::new(), done: false }
    }

    /// Parses the first complete value out of `buffer`, handing back the
    /// value (if one is complete) and the bytes that remain unparsed.
    pub fn parse_next(&self, buffer: &[u8]) -> (r: Result<
        (Option<Value>, Vec<u8>),
        crate::codec::DecodeError,
    >)
        ensures
            match first_complete(buffer@) {
                None => r matches Ok(p) && p.0 is None && p.1@ == buffer@,
                Some(s) => match crate::codec::dec(buffer@) {
                    Some((v, n)) => r matches Ok(p) && (p.0 matches Some(x) && x@ == v) && p.1@
                        == buffer@.skip(n),
                    None => r == Err::<(Option<Value>, Vec<u8>), _>(
                        crate::codec::DecodeError::Invalid,
                    ),
                },
            },
    {
        if buffer.len() == 0 {
            return Ok((None, Vec::new()));
        }
        proof {
            lemma_value_size_pos(buffer@);
        }
        let size = match get_value_size(buffer) {
            Some(s) => {
                if buffer.len() >= s {
                    s
                } else {
                    return Ok((None, vstd::slice::slice_to_vec(buffer)));
                }
            },
            None => {
                return Ok((None, vstd::slice::slice_to_vec(buffer)));
            },
        };
        proof {
            lemma_value_size_pos(buffer@);
            assert(buffer@.subrange(0, size as int).subrange(0, size as int) =~= buffer@.subrange(
                0,
                size as int,
            ));
            crate::codec::lemma_prefix_determines(buffer@, buffer@.subrange(0, size as int));
            crate::codec::lemma_dec_value_size(buffer@);
        }
        let value_buffer = vstd::slice::slice_subrange(buffer, 0, size);
        let unparsed = vstd::slice::slice_to_vec(
            vstd::slice::slice_subrange(buffer, size, buffer.len()),
        );
        proof {
            assert(buffer@.subrange(size as int, buffer@.len() as int) =~= buffer@.skip(
                size as int,
            ));
        }
        match crate::codec::decode(value_buffer) {
            Ok(value) => Ok((Some(value), unparsed)),
            Err(_) => Err(crate::codec::DecodeError::Invalid),
        }
    }

    /// Appends freshly read bytes to the residual buffer.
    pub fn ingest(&mut self, buffer: &[u8])
        ensures
            final(self).unparsed_buffer@ == old(self).unparsed_buffer@ + buffer@,
            final(self).done == old(self).done,
    {
        let mut fresh = vstd::slice::slice_to_vec(buffer);
        self.unparsed_buffer.append(&mut fresh);
    }

    /// Takes the next complete value out of the residual buffer, if one
    /// is already there. After the stream has ended nothing more comes
    /// out, whatever the buffer still holds; a decode error ends the
    /// stream.
    pub fn read_next(&mut self) -> (r: Result<Option<Value>, crate::codec::DecodeError>)
        ensures
            old(self).done ==> r == Ok::<Option<Value>, crate::codec::DecodeError>(None) && *final(self) == *old(self),
            !old(self).done ==> {
                let b = old(self).unparsed_buffer@;
                match first_complete(b) {
                    None => r == Ok::<Option<Value>, crate::codec::DecodeError>(None) && *final(self) == *old(self),
                    Some(s) => match crate::codec::dec(b) {
                        Some((v, n)) => (r matches Ok(o) && (o matches Some(x) && x@ == v))
                            && final(self).unparsed_buffer@ == b.skip(n) && !final(self).done,
                        None => r == Err::<Option<Value>, _>(crate::codec::DecodeError::Invalid)
                            && final(self).done,
                    },
                }
            },
    {
        if self.done {
            return Ok(None);
        }
        match self.parse_next(self.unparsed_buffer.as_slice()) {
            Ok((next, unparsed)) => {
                match next {
                    Some(value) => {
                        self.unparsed_buffer = unparsed;
                        Ok(Some(value))
                    },
                    None => Ok(None),
                }
            },
            Err(e) => {
                self.done = true;
                Err(e)
            },
        }
    }

    /// Applies the outcome of one read of the byte source. The stream
    /// ends for good when the source closes — even if unconsumed bytes
    /// remain buffered — and once ended, every further poll reports the
    /// end again.
    pub fn poll_next(&mut self, event: ReadEvent) -> (r: PollNext)
        ensures
            old(self).done ==> r == PollNext::End && *final(self) == *old(self),
            !old(self).done ==> match event {
                ReadEvent::Closed => r == PollNext::End && final(self).done && final(self).unparsed_buffer == old(self).unparsed_buffer,
                ReadEvent::Pending => r == PollNext::Pending && *final(self) == *old(self),
                ReadEvent::Data(bytes) => {
                    let b = old(self).unparsed_buffer@ + bytes@;
                    match first_complete(b) {
                        None => r == PollNext::More && final(self).unparsed_buffer@ == b && !final(self).done,
                        Some(s) => match crate::codec::dec(b) {
                            Some((v, n)) => (r matches PollNext::Ready(x) && x@ == v) && final(self).unparsed_buffer@ == b.skip(n) && !final(self).done,
                            None => r == PollNext::Failed(crate::codec::DecodeError::Invalid)
                                && final(self).done,
                        },
                    }
                },
            },
    {
        if self.done {
            return PollNext::End;
        }
        match event {
            ReadEvent::Closed => {
                self.done = true;
                PollNext::End
            },
            ReadEvent::Pending => PollNext::Pending,
            ReadEvent::Data(bytes) => {
                self.ingest(bytes.as_slice());
                match self.read_next() {
                    Ok(Some(value)) => PollNext::Ready(value),
                    Ok(None) => PollNext::More,
                    Err(e) => PollNext::Failed(e),
                }
            },
        }
    }
}

} // verus!
