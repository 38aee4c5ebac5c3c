//! Decoder for the `mappings` field of a source map: Base64 VLQ segments separated
//! by `,`, lines separated by `;`.
use crate::mapping::{Mapping, OriginalLocation};
use vstd::prelude::*;
use vstd::utf8::encode_utf8;

verus! {

/// Table value of `,`: end of a segment.
pub const COM: u8 = 0x40;

/// Table value of `;`: end of a segment and of a generated line.
pub const SEM: u8 = 0x41;

/// Table value of every byte that is not part of the alphabet; such bytes are skipped.
pub const ERR: u8 = 0x42;

/// Bit of a Base64 digit that says more digits of the same value follow.
pub const CONTINUATION_BIT: u8 = 0x20;

/// Data bits of a Base64 digit.
pub const DATA_MASK: u8 = 0x1f;

/// The Base64 table of the decoder: `A`-`Z`, `a`-`z`, `0`-`9`, `+`, `/` give 0 to 63,
/// `,` gives [`COM`], `;` gives [`SEM`], every other byte gives [`ERR`].
pub open spec fn b64_spec(b: u8) -> u8 {
    if 65 <= b <= 90 {
        (b - 65) as u8
    } else if 97 <= b <= 122 {
        (b - 71) as u8
    } else if 48 <= b <= 57 {
        (b + 4) as u8
    } else if b == 43 {
        62
    } else if b == 47 {
        63
    } else if b == 44 {
        COM
    } else if b == 59 {
        SEM
    } else {
        ERR
    }
}

fn b64_value(b: u8) -> (v: u8)
    ensures
        v == b64_spec(b),
{
    if 65 <= b && b <= 90 {
        b - 65
    } else if 97 <= b && b <= 122 {
        b - 71
    } else if 48 <= b && b <= 57 {
        b + 4
    } else if b == 43 {
        62
    } else if b == 47 {
        63
    } else if b == 44 {
        COM
    } else if b == 59 {
        SEM
    } else {
        ERR
    }
}

/// The state of the decoder between two bytes: the five fields of the current
/// segment (generated column, source index, original line, original column, name
/// index, each relative to the previous segment's value), how many fields the
/// current segment has, the VLQ value being read and its bit position, and the
/// current generated line.
pub struct DecodeState {
    pub data: Seq<u32>,
    pub data_pos: nat,
    pub value: u32,
    pub value_pos: u32,
    pub line: u32,
}

/// The state before the first byte.
pub open spec fn initial_state() -> DecodeState {
    DecodeState { data: seq![0u32, 0u32, 1u32, 0u32, 0u32], data_pos: 0, value: 0, value_pos: 0, line: 1 }
}

/// The mapping of a finished segment with `count` fields: one field gives a
/// mapping without original, four give one with an original location, five add a
/// name; any other count gives no mapping.
pub open spec fn segment_mapping(data: Seq<u32>, line: u32, column: u32, count: nat) -> Option<Mapping> {
    if count == 1 {
        Some(Mapping { generated_line: line, generated_column: column, original: None })
    } else if count == 4 {
        Some(
            Mapping {
                generated_line: line,
                generated_column: column,
                original: Some(
                    OriginalLocation {
                        source_index: data[1],
                        original_line: data[2],
                        original_column: data[3],
                        name_index: None,
                    },
                ),
            },
        )
    } else if count == 5 {
        Some(
            Mapping {
                generated_line: line,
                generated_column: column,
                original: Some(
                    OriginalLocation {
                        source_index: data[1],
                        original_line: data[2],
                        original_column: data[3],
                        name_index: Some(data[4]),
                    },
                ),
            },
        )
    } else {
        None
    }
}

/// The value a finished VLQ stands for: bit 0 is the sign, the rest the magnitude.
pub open spec fn vlq_signed(v: u32) -> int {
    if v & 1 != 0 {
        -((v >> 1) as int)
    } else {
        (v >> 1) as int
    }
}

/// Whether byte `b` can be taken in state `s` without leaving the machine's
/// integer ranges: a digit is only shifted by less than 32 bits, and a `;` does
/// not take the line number past `u32::MAX`.
pub open spec fn step_ok(s: DecodeState, b: u8) -> bool {
    let v = b64_spec(b);
    if v < COM {
        s.value_pos < 32
    } else if v == SEM {
        s.line < u32::MAX
    } else {
        true
    }
}

/// One byte of input: the next state, and the mapping emitted at a separator.
pub open spec fn step(s: DecodeState, b: u8) -> (DecodeState, Option<Mapping>) {
    let v = b64_spec(b);
    if v < COM {
        if v & CONTINUATION_BIT == 0 {
            let cur = s.value | ((v as u32) << s.value_pos);
            let data = if s.data_pos < 5 {
                s.data.update(s.data_pos as int, (s.data[s.data_pos as int] + vlq_signed(cur)) as u32)
            } else {
                s.data
            };
            (DecodeState { data, data_pos: s.data_pos + 1, value: 0, value_pos: 0, line: s.line }, None)
        } else {
            (
                DecodeState {
                    data: s.data,
                    data_pos: s.data_pos,
                    value: s.value | (((v & DATA_MASK) as u32) << s.value_pos),
                    value_pos: (s.value_pos + 5) as u32,
                    line: s.line,
                },
                None,
            )
        }
    } else if v == ERR {
        (s, None)
    } else {
        let m = segment_mapping(s.data, s.line, s.data[0], s.data_pos);
        if v == SEM {
            (
                DecodeState {
                    data: s.data.update(0, 0),
                    data_pos: 0,
                    value: s.value,
                    value_pos: s.value_pos,
                    line: (s.line + 1) as u32,
                },
                m,
            )
        } else {
            (
                DecodeState {
                    data: s.data,
                    data_pos: 0,
                    value: s.value,
                    value_pos: s.value_pos,
                    line: s.line,
                },
                m,
            )
        }
    }
}

pub open spec fn opt_seq(m: Option<Mapping>) -> Seq<Mapping> {
    match m {
        Some(m) => seq![m],
        None => Seq::empty(),
    }
}

/// Running the decoder from `s` over `bytes`: the final state, the mappings
/// emitted at separators, and whether every byte stayed within the machine's
/// integer ranges.
pub open spec fn run(s: DecodeState, bytes: Seq<u8>) -> (DecodeState, Seq<Mapping>, bool)
    decreases bytes.len(),
{
    if bytes.len() == 0 {
        (s, Seq::empty(), true)
    } else {
        let r = run(s, bytes.drop_last());
        let (s2, m) = step(r.0, bytes.last());
        (s2, r.1 + opt_seq(m), r.2 && step_ok(r.0, bytes.last()))
    }
}

/// The mappings that decoding `bytes` from state `s` yields: those emitted at
/// separators, then the one of the unfinished last segment.
pub open spec fn decode_from(s: DecodeState, bytes: Seq<u8>) -> Seq<Mapping> {
    let r = run(s, bytes);
    r.1 + opt_seq(segment_mapping(r.0.data, r.0.line, r.0.data[0], r.0.data_pos))
}

/// Whether decoding `bytes` from `s` stays within the machine's integer ranges.
pub open spec fn decodable_from(s: DecodeState, bytes: Seq<u8>) -> bool {
    run(s, bytes).2
}

/// The mappings that a `mappings` string decodes to.
pub open spec fn decode_mappings(bytes: Seq<u8>) -> Seq<Mapping> {
    decode_from(initial_state(), bytes)
}

/// Whether a `mappings` string can be decoded: no value has more than six
/// continuation digits before the digit that ends it, and there are fewer than
/// `u32::MAX` lines.
pub open spec fn decodable(bytes: Seq<u8>) -> bool {
    decodable_from(initial_state(), bytes)
}

pub struct MappingsDecoder<'a> {
    mappings: &'a [u8],
    index: usize,
    current_data: [u32; 5],
    current_data_pos: usize,
    // current_value will include a sign bit at bit 0
    current_value: u32,
    current_value_pos: u32,
    generated_line: u32,
}

impl<'a> MappingsDecoder<'a> {
    /// The decoder's state.
    pub closed spec fn state(&self) -> DecodeState {
        DecodeState {
            data: self.current_data@,
            data_pos: self.current_data_pos as nat,
            value: self.current_value,
            value_pos: self.current_value_pos,
            line: self.generated_line,
        }
    }

    /// The bytes not yet read.
    pub closed spec fn remaining(&self) -> Seq<u8> {
        self.mappings@.subrange(self.index as int, self.mappings@.len() as int)
    }

    /// The decoder's own bookkeeping is consistent.
    pub closed spec fn wf(&self) -> bool {
        &&& self.index <= self.mappings@.len()
        &&& self.current_data_pos <= self.index
    }

    pub fn new(mappings: &'a str) -> (d: Self)
        ensures
            d.wf(),
            d.state() == initial_state(),
            d.remaining() == encode_utf8(mappings@),
    {
        let d = Self {
            mappings: mappings.as_bytes(),
            index: 0,
            current_data: [0u32, 0u32, 1u32, 0u32, 0u32],
            current_data_pos: 0,
            // current_value will include a sign bit at bit 0
            current_value: 0,
            current_value_pos: 0,
            generated_line: 1,
        };
        assert(d.current_data@ =~= seq![0u32, 0u32, 1u32, 0u32, 0u32]);
        assert(d.remaining() =~= encode_utf8(mappings@));
        d
    }

    fn emit_segment(&self, generated_line: u32, generated_column: u32, current_data_pos: usize) -> (r:
        Option<Mapping>)
        ensures
            r == segment_mapping(self.current_data@, generated_line, generated_column, current_data_pos as nat),
    {
        match current_data_pos {
            1 => Some(Mapping { generated_line, generated_column, original: None }),
            4 => Some(
                Mapping {
                    generated_line,
                    generated_column,
                    original: Some(
                        OriginalLocation {
                            source_index: self.current_data[1],
                            original_line: self.current_data[2],
                            original_column: self.current_data[3],
                            name_index: None,
                        },
                    ),
                },
            ),
            5 => Some(
                Mapping {
                    generated_line,
                    generated_column,
                    original: Some(
                        OriginalLocation {
                            source_index: self.current_data[1],
                            original_line: self.current_data[2],
                            original_column: self.current_data[3],
                            name_index: Some(self.current_data[4]),
                        },
                    ),
                },
            ),
            _ => None,
        }
    }

    /// Decodes the remaining bytes and appends the mappings, in order, to `out`.
    pub fn decode_into(self, out: &mut Vec<Mapping>)
        requires
            self.wf(),
            decodable_from(self.state(), self.remaining()),
        ensures
            final(out)@ == old(out)@ + decode_from(self.state(), self.remaining()),
    {
        let mut this = self;
        let ghost start = self.index as int;
        let ghost all = self.remaining();
        let ghost s0 = self.state();
        proof {
            lemma_run_ok_prefix(s0, all, all.len() as int);
        }
        while this.index < this.mappings.len()
            invariant
                this.mappings@ == self.mappings@,
                start == self.index as int,
                start <= this.index <= this.mappings@.len(),
                this.current_data_pos <= this.index,
                all == self.mappings@.subrange(start, self.mappings@.len() as int),
                all.len() == self.mappings@.len() - start,
                decodable_from(s0, all),
                run(s0, all.take(this.index - start)).0 == this.state(),
                out@ == old(out)@ + run(s0, all.take(this.index - start)).1,
            decreases this.mappings@.len() - this.index,
        {
            let ghost k = this.index - start;
            let ghost before = this.state();
            proof {
                lemma_run_ok_prefix(s0, all, k + 1);
                assert(all.take(k + 1).drop_last() =~= all.take(k));
                assert(all[k] == self.mappings@[start + k]);
                assert(all.take(k + 1).last() == all[k]);
            }
            let byte = this.mappings[this.index];
            let value = b64_value(byte);
            this.index += 1;

            if value < COM {
                if (value & CONTINUATION_BIT) == 0 {
                    this.current_value |= (value as u32) << this.current_value_pos;
                    let final_value: i64 = if (this.current_value & 1) != 0 {
                        -((this.current_value >> 1) as i64)
                    } else {
                        (this.current_value >> 1) as i64
                    };
                    if this.current_data_pos < 5 {
                        let p = this.current_data_pos;
                        this.current_data[p] = #[verifier::truncate] ((this.current_data[p] as i64 + final_value) as u32);
                    }
                    this.current_data_pos += 1;
                    this.current_value_pos = 0;
                    this.current_value = 0;
                } else {
                    this.current_value |= ((value & DATA_MASK) as u32) << this.current_value_pos;
                    this.current_value_pos += 5;
                }
                proof {
                    assert(this.state().data =~= step(before, byte).0.data);
                }
                continue;
            }
            if value == ERR {
                continue;
            }
            let generated_line = this.generated_line;
            let generated_column = this.current_data[0];
            let current_data_pos = this.current_data_pos;
            let segment = this.emit_segment(generated_line, generated_column, current_data_pos);
            this.current_data_pos = 0;
            if value == SEM {
                this.generated_line += 1;
                this.current_data[0] = 0;
            }
            proof {
                assert(this.state().data =~= step(before, byte).0.data);
            }
            if let Some(mapping) = segment {
                out.push(mapping);
            }
            proof {
                assert(out@ =~= old(out)@ + run(s0, all.take(k + 1)).1);
            }
        }
        proof {
            assert(all.take(this.index - start) =~= all);
        }
        let current_data_pos = this.current_data_pos;
        this.current_data_pos = 0;
        if let Some(mapping) = this.emit_segment(this.generated_line, this.current_data[0], current_data_pos) {
            out.push(mapping);
        }
        proof {
            assert(out@ =~= old(out)@ + decode_from(s0, all));
        }
    }
}

/// A run that stays in range also stays in range on every prefix, and the next
/// byte after that prefix is in range.
proof fn lemma_run_ok_prefix(s: DecodeState, bytes: Seq<u8>, k: int)
    requires
        run(s, bytes).2,
        0 <= k <= bytes.len(),
    ensures
        run(s, bytes.take(k)).2,
        k < bytes.len() ==> step_ok(run(s, bytes.take(k)).0, bytes[k]),
    decreases bytes.len() - k,
{
    if k < bytes.len() {
        lemma_run_ok_prefix(s, bytes, k + 1);
        assert(bytes.take(k + 1).drop_last() =~= bytes.take(k));
    } else {
        assert(bytes.take(k) =~= bytes);
    }
}

/// Generated lines never decrease along a sequence of mappings.
pub open spec fn lines_ordered(ms: Seq<Mapping>) -> bool {
    forall|i: int, j: int| 0 <= i <= j < ms.len() ==> ms[i].generated_line <= ms[j].generated_line
}

proof fn lemma_run_lines(s: DecodeState, bytes: Seq<u8>)
    requires
        run(s, bytes).2,
    ensures
        run(s, bytes).0.line >= s.line,
        lines_ordered(run(s, bytes).1),
        forall|i: int|
            0 <= i < run(s, bytes).1.len() ==> s.line <= #[trigger] run(s, bytes).1[i].generated_line
                <= run(s, bytes).0.line,
    decreases bytes.len(),
{
    if bytes.len() > 0 {
        lemma_run_lines(s, bytes.drop_last());
    }
}

/// The mappings of a decodable `mappings` string come out line by line: every
/// generated line is at least 1, and no mapping has a smaller generated line than
/// one before it.
pub proof fn lemma_decoded_lines_ordered(bytes: Seq<u8>)
    requires
        decodable(bytes),
    ensures
        lines_ordered(decode_mappings(bytes)),
        forall|i: int|
            0 <= i < decode_mappings(bytes).len() ==> 1 <= #[trigger] decode_mappings(
                bytes,
            )[i].generated_line,
{
    lemma_run_lines(initial_state(), bytes);
    let r = run(initial_state(), bytes);
    let d = decode_mappings(bytes);
    assert forall|i: int| 0 <= i < d.len() implies 1 <= #[trigger] d[i].generated_line
        <= r.0.line by {
        if i < r.1.len() {
            assert(d[i] == r.1[i]);
        }
    }
    assert forall|i: int, j: int| 0 <= i <= j < d.len() implies d[i].generated_line
        <= d[j].generated_line by {
        if j < r.1.len() {
            assert(d[i] == r.1[i]);
            assert(d[j] == r.1[j]);
        } else if i < r.1.len() {
            assert(d[i] == r.1[i]);
        }
    }
}

proof fn lemma_run_concat(s: DecodeState, a: Seq<u8>, b: Seq<u8>)
    ensures
        run(s, a + b).0 == run(run(s, a).0, b).0,
        run(s, a + b).1 == run(s, a).1 + run(run(s, a).0, b).1,
        run(s, a + b).2 == (run(s, a).2 && run(run(s, a).0, b).2),
    decreases b.len(),
{
    if b.len() == 0 {
        assert(a + b =~= a);
        assert(run(s, a).1 + Seq::<Mapping>::empty() =~= run(s, a).1);
    } else {
        lemma_run_concat(s, a, b.drop_last());
        assert((a + b).drop_last() =~= a + b.drop_last());
        assert((a + b).last() == b.last());
        let m = step(run(run(s, a).0, b.drop_last()).0, b.last()).1;
        assert(run(s, a).1 + run(run(s, a).0, b.drop_last()).1 + opt_seq(m) =~= run(s, a).1 + (run(
            run(s, a).0,
            b.drop_last(),
        ).1 + opt_seq(m)));
    }
}

/// Decoding is incremental at segment boundaries: when `a` ends with `,` or `;`,
/// the mappings of `a` are exactly the first mappings of `a + b`.
pub proof fn lemma_decode_prefix_at_separator(a: Seq<u8>, b: Seq<u8>)
    requires
        a.len() > 0,
        a.last() == 44u8 || a.last() == 59u8,
    ensures
        decode_mappings(a).len() <= decode_mappings(a + b).len(),
        decode_mappings(a + b).take(decode_mappings(a).len() as int) == decode_mappings(a),
{
    let s = initial_state();
    lemma_run_concat(s, a, b);
    let ra = run(s, a);
    assert(ra.0.data_pos == 0);
    assert(decode_mappings(a) =~= ra.1);
    let rest = run(ra.0, b);
    let tail = opt_seq(segment_mapping(rest.0.data, rest.0.line, rest.0.data[0], rest.0.data_pos));
    assert(decode_mappings(a + b) =~= ra.1 + (rest.1 + tail));
    assert((ra.1 + (rest.1 + tail)).take(ra.1.len() as int) =~= ra.1);
}


/// A byte outside the base64 alphabet, `,` and `;` is skipped: decoding with it
/// gives what decoding without it gives.
pub proof fn lemma_decode_skips_invalid_byte(a: Seq<u8>, b: u8, c: Seq<u8>)
    requires
        b64_spec(b) == ERR,
    ensures
        decode_mappings(a + seq![b] + c) == decode_mappings(a + c),
        decodable(a + seq![b] + c) == decodable(a + c),
{
    let s = initial_state();
    lemma_run_concat(s, a + seq![b], c);
    lemma_run_concat(s, a, seq![b]);
    lemma_run_concat(s, a, c);
    let ra = run(s, a);
    assert(seq![b].drop_last() =~= Seq::<u8>::empty());
    assert(run(ra.0, Seq::<u8>::empty()) == (ra.0, Seq::<Mapping>::empty(), true));
    assert(run(ra.0, seq![b]).0 == ra.0);
    assert(run(ra.0, seq![b]).1 =~= Seq::<Mapping>::empty());
    assert(run(s, a + seq![b]).1 =~= ra.1);
}


/// The bytes of the base64 alphabet, `,` and `;` among `bytes`, in order.
pub open spec fn alphabet_only(bytes: Seq<u8>) -> Seq<u8>
    decreases bytes.len(),
{
    if bytes.len() == 0 {
        Seq::empty()
    } else if b64_spec(bytes.last()) == ERR {
        alphabet_only(bytes.drop_last())
    } else {
        alphabet_only(bytes.drop_last()).push(bytes.last())
    }
}

proof fn lemma_run_alphabet_only(s: DecodeState, bytes: Seq<u8>)
    ensures
        run(s, alphabet_only(bytes)) == run(s, bytes),
    decreases bytes.len(),
{
    if bytes.len() > 0 {
        lemma_run_alphabet_only(s, bytes.drop_last());
        if b64_spec(bytes.last()) != ERR {
            let f = alphabet_only(bytes.drop_last()).push(bytes.last());
            assert(f.drop_last() =~= alphabet_only(bytes.drop_last()));
            assert(f.last() == bytes.last());
        }
    }
}

/// Bytes outside the base64 alphabet, `,` and `;` are skipped wherever they
/// stand, even inside a value: decoding the bytes gives what decoding only
/// those of the alphabet gives.
pub proof fn lemma_decode_alphabet_only(bytes: Seq<u8>)
    ensures
        decode_mappings(alphabet_only(bytes)) == decode_mappings(bytes),
        decodable(alphabet_only(bytes)) == decodable(bytes),
{
    lemma_run_alphabet_only(initial_state(), bytes);
}


/// The standard Base64 alphabet: the character of each digit value, in order.
pub open spec fn base64_alphabet() -> Seq<char> {
    "ABCDEFGHIJKLMNOPQRSTUVWXYZabcdefghijklmnopqrstuvwxyz0123456789+/"@
}

/// The decoder reads digits by the standard Base64 alphabet: the character at
/// position `v` of the alphabet stands for `v`, and a byte that stands for a
/// digit value is the alphabet's character at that position.
pub proof fn lemma_b64_alphabet()
    ensures
        base64_alphabet().len() == 64,
        forall|v: int| 0 <= v < 64 ==> b64_spec(#[trigger] base64_alphabet()[v] as u8) == v,
        forall|b: u8| #[trigger] b64_spec(b) < 64 ==> base64_alphabet()[b64_spec(b) as int] as u8 == b,
{
    reveal_strlit("ABCDEFGHIJKLMNOPQRSTUVWXYZabcdefghijklmnopqrstuvwxyz0123456789+/");
    let a = base64_alphabet();
    assert forall|v: int| 0 <= v < 64 implies b64_spec(#[trigger] a[v] as u8) == v by {
        if v == 0 {
            assert(a[0] == 'A');
        } else if v == 1 {
            assert(a[1] == 'B');
        } else if v == 2 {
            assert(a[2] == 'C');
        } else if v == 3 {
            assert(a[3] == 'D');
        } else if v == 4 {
            assert(a[4] == 'E');
        } else if v == 5 {
            assert(a[5] == 'F');
        } else if v == 6 {
            assert(a[6] == 'G');
        } else if v == 7 {
            assert(a[7] == 'H');
        } else if v == 8 {
            assert(a[8] == 'I');
        } else if v == 9 {
            assert(a[9] == 'J');
        } else if v == 10 {
            assert(a[10] == 'K');
        } else if v == 11 {
            assert(a[11] == 'L');
        } else if v == 12 {
            assert(a[12] == 'M');
        } else if v == 13 {
            assert(a[13] == 'N');
        } else if v == 14 {
            assert(a[14] == 'O');
        } else if v == 15 {
            assert(a[15] == 'P');
        } else if v == 16 {
            assert(a[16] == 'Q');
        } else if v == 17 {
            assert(a[17] == 'R');
        } else if v == 18 {
            assert(a[18] == 'S');
        } else if v == 19 {
            assert(a[19] == 'T');
        } else if v == 20 {
            assert(a[20] == 'U');
        } else if v == 21 {
            assert(a[21] == 'V');
        } else if v == 22 {
            assert(a[22] == 'W');
        } else if v == 23 {
            assert(a[23] == 'X');
        } else if v == 24 {
            assert(a[24] == 'Y');
        } else if v == 25 {
            assert(a[25] == 'Z');
        } else if v == 26 {
            assert(a[26] == 'a');
        } else if v == 27 {
            assert(a[27] == 'b');
        } else if v == 28 {
            assert(a[28] == 'c');
        } else if v == 29 {
            assert(a[29] == 'd');
        } else if v == 30 {
            assert(a[30] == 'e');
        } else if v == 31 {
            assert(a[31] == 'f');
        } else if v == 32 {
            assert(a[32] == 'g');
        } else if v == 33 {
            assert(a[33] == 'h');
        } else if v == 34 {
            assert(a[34] == 'i');
        } else if v == 35 {
            assert(a[35] == 'j');
        } else if v == 36 {
            assert(a[36] == 'k');
        } else if v == 37 {
            assert(a[37] == 'l');
        } else if v == 38 {
            assert(a[38] == 'm');
        } else if v == 39 {
            assert(a[39] == 'n');
        } else if v == 40 {
            assert(a[40] == 'o');
        } else if v == 41 {
            assert(a[41] == 'p');
        } else if v == 42 {
            assert(a[42] == 'q');
        } else if v == 43 {
            assert(a[43] == 'r');
        } else if v == 44 {
            assert(a[44] == 's');
        } else if v == 45 {
            assert(a[45] == 't');
        } else if v == 46 {
            assert(a[46] == 'u');
        } else if v == 47 {
            assert(a[47] == 'v');
        } else if v == 48 {
            assert(a[48] == 'w');
        } else if v == 49 {
            assert(a[49] == 'x');
        } else if v == 50 {
            assert(a[50] == 'y');
        } else if v == 51 {
            assert(a[51] == 'z');
        } else if v == 52 {
            assert(a[52] == '0');
        } else if v == 53 {
            assert(a[53] == '1');
        } else if v == 54 {
            assert(a[54] == '2');
        } else if v == 55 {
            assert(a[55] == '3');
        } else if v == 56 {
            assert(a[56] == '4');
        } else if v == 57 {
            assert(a[57] == '5');
        } else if v == 58 {
            assert(a[58] == '6');
        } else if v == 59 {
            assert(a[59] == '7');
        } else if v == 60 {
            assert(a[60] == '8');
        } else if v == 61 {
            assert(a[61] == '9');
        } else if v == 62 {
            assert(a[62] == '+');
        } else if v == 63 {
            assert(a[63] == '/');
        }
    }
    assert forall|b: u8| #[trigger] b64_spec(b) < 64 implies a[b64_spec(b) as int] as u8 == b by {
        let v = b64_spec(b) as int;
        assert(b64_spec(a[v] as u8) == v);
    }
}

} // verus!
