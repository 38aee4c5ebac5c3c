//! A source of generated code given as bytes, without any mapping to an original.
use crate::raw_source::{info_fits, push_char, push_spaces, raw_stream, spaces, RawStringSource};
use crate::stream::{MapOptions, SectionOutput, StreamOutput};
use crate::to_json::decimal;
use vstd::prelude::*;
use vstd::string::StringExecFns;
use vstd::utf8::{decode_utf8, valid_utf8};

verus! {

/// The text that `String::from_utf8_lossy` makes of the bytes.
pub uninterp spec fn utf8_lossy(b: Seq<u8>) -> Seq<char>;

/// `String::from_utf8_lossy`, as an owned string: the bytes as text, with each
/// invalid sequence replaced by U+FFFD; valid UTF-8 comes back unchanged.
#[verifier::external_body]
fn string_from_utf8_lossy(b: &[u8]) -> (r: String)
    ensures
        r@ == utf8_lossy(b@),
        valid_utf8(b@) ==> r@ == decode_utf8(b@),
{
    String::from_utf8_lossy(b).into_owned()
}

/// The debug text of a byte vector: the bytes in decimal, separated by `, `,
/// in square brackets.
pub open spec fn bytes_debug(b: Seq<u8>) -> Seq<char> {
    seq!['['] + bytes_debug_items(b) + seq![']']
}

pub open spec fn bytes_debug_items(b: Seq<u8>) -> Seq<char>
    decreases b.len(),
{
    if b.len() == 0 {
        Seq::empty()
    } else if b.len() == 1 {
        decimal(b[0] as nat)
    } else {
        bytes_debug_items(b.drop_last()) + seq![',', ' '] + decimal(b.last() as nat)
    }
}

fn push_decimal(s: &mut String, n: u8)
    ensures
        final(s)@ == old(s)@ + decimal(n as nat),
    decreases n,
{
    if n >= 10 {
        push_decimal(s, n / 10);
    }
    let d: u8 = n % 10 + 48;
    push_char(s, d as char);
    proof {
        assert(old(s)@ + decimal(n as nat) =~= if n >= 10 {
            old(s)@ + decimal((n / 10) as nat) + seq![(48 + (n as nat) % 10) as char]
        } else {
            old(s)@ + seq![(48 + (n as nat) % 10) as char]
        });
    }
}

/// The debug text of the source, indented by `indent` spaces.
pub open spec fn buffer_debug(b: Seq<u8>, indent: nat) -> Seq<char> {
    spaces(indent) + "RawBufferSource::from("@ + bytes_debug(b) + ").boxed()"@
}

/// A source of generated code, given as bytes, without any mapping.
#[derive(Debug)]
pub struct RawBufferSource {
    value: Vec<u8>,
}

impl View for RawBufferSource {
    type V = Seq<u8>;

    closed spec fn view(&self) -> Seq<u8> {
        self.value@
    }
}

impl RawBufferSource {
    pub fn from_vec(value: Vec<u8>) -> (r: Self)
        ensures
            r@ == value@,
    {
        RawBufferSource { value }
    }

    pub fn from_bytes(value: &[u8]) -> (r: Self)
        ensures
            r@ == value@,
    {
        let mut v: Vec<u8> = Vec::new();
        let mut i: usize = 0;
        while i < value.len()
            invariant
                i <= value@.len(),
                v@ == value@.take(i as int),
            decreases value@.len() - i,
        {
            v.push(value[i]);
            assert(value@.take(i + 1) =~= value@.take(i as int).push(value@[i as int]));
            i += 1;
        }
        assert(value@.take(i as int) =~= value@);
        RawBufferSource { value: v }
    }

    /// The generated code as text.
    pub fn source(&self) -> (r: String)
        ensures
            r@ == utf8_lossy(self@),
            valid_utf8(self@) ==> r@ == decode_utf8(self@),
    {
        string_from_utf8_lossy(self.value.as_slice())
    }

    /// The generated code as bytes.
    pub fn buffer(&self) -> (r: &Vec<u8>)
        ensures
            r@ == self@,
    {
        &self.value
    }

    /// Size of the generated code in bytes.
    pub fn size(&self) -> (r: usize)
        ensures
            r == self@.len(),
    {
        self.value.len()
    }

    /// A copy of the source.
    pub fn clone(&self) -> (r: Self)
        ensures
            r@ == self@,
    {
        RawBufferSource::from_bytes(self.value.as_slice())
    }

    /// The chunk stream of the source: that of its text.
    pub fn chunks(&self, options: &MapOptions) -> (r: StreamOutput)
        requires
            info_fits(utf8_lossy(self@)),
        ensures
            r@ == raw_stream(utf8_lossy(self@), *options),
    {
        RawStringSource::from_string(self.source()).chunks(options)
    }

    /// The section stream of the source: that of its text.
    pub fn sections(&self) -> (r: SectionOutput)
        requires
            info_fits(utf8_lossy(self@)),
        ensures
            r.sections@.len() == 1,
            r.sections@[0].offset == (crate::stream::Offset { line: 0, column: 0 }),
            r.sections@[0].map is None,
            r.info == crate::raw_source::text_info(utf8_lossy(self@)),
    {
        RawStringSource::from_string(self.source()).sections()
    }

    /// The chunk stream of the source, when its end position fits in `u32`.
    pub fn try_chunks(&self, options: &MapOptions) -> (r: Option<StreamOutput>)
        ensures
            r is Some <==> info_fits(utf8_lossy(self@)),
            r matches Some(o) ==> o@ == raw_stream(utf8_lossy(self@), *options),
    {
        let text = RawStringSource::from_string(self.source());
        if crate::raw_source::end_fits(text.source()) {
            Some(text.chunks(options))
        } else {
            None
        }
    }

    /// The section stream of the source, when its end position fits in `u32`.
    pub fn try_sections(&self) -> (r: Option<SectionOutput>)
        ensures
            r is Some <==> info_fits(utf8_lossy(self@)),
            r matches Some(o) ==> {
                &&& o.sections@.len() == 1
                &&& o.sections@[0].offset == (crate::stream::Offset { line: 0, column: 0 })
                &&& o.sections@[0].map is None
                &&& o.info == crate::raw_source::text_info(utf8_lossy(self@))
            },
    {
        let text = RawStringSource::from_string(self.source());
        if crate::raw_source::end_fits(text.source()) {
            Some(text.sections())
        } else {
            None
        }
    }

    /// The debug text of the source, indented by `indent` spaces.
    pub fn debug_string(&self, indent: usize) -> (r: String)
        ensures
            r@ == buffer_debug(self@, indent as nat),
    {
        let mut r = String::new();
        push_spaces(&mut r, indent);
        r.append("RawBufferSource::from(");
        let ghost start = r@;
        push_char(&mut r, '[');
        let mut i: usize = 0;
        let ghost b = self.value@;
        proof {
            assert(b.take(0) =~= Seq::<u8>::empty());
        }
        while i < self.value.len()
            invariant
                b == self.value@,
                i <= b.len(),
                r@ == start + seq!['['] + bytes_debug_items(b.take(i as int)),
            decreases b.len() - i,
        {
            if i > 0 {
                r.append(", ");
                proof {
                    reveal_strlit(", ");
                }
            }
            push_decimal(&mut r, self.value[i]);
            proof {
                assert(b.take(i + 1).drop_last() =~= b.take(i as int));
                if i == 0 {
                    assert(b.take(1)[0] == b[0]);
                }
            }
            assert(r@ =~= start + seq!['['] + bytes_debug_items(b.take(i + 1)));
            i += 1;
        }
        assert(b.take(i as int) =~= b);
        push_char(&mut r, ']');
        r.append(").boxed()");
        assert(r@ =~= buffer_debug(self@, indent as nat));
        r
    }
}

impl RawBufferSource {
    /// Whether the two sources have the same bytes.
    pub fn same_bytes(&self, other: &Self) -> (r: bool)
        ensures
            r == (self@ == other@),
    {
        if self.value.len() != other.value.len() {
            return false;
        }
        let mut i: usize = 0;
        while i < self.value.len()
            invariant
                self.value@.len() == other.value@.len(),
                i <= self.value@.len(),
                forall|j: int| 0 <= j < i ==> self.value@[j] == other.value@[j],
            decreases self.value@.len() - i,
        {
            if self.value[i] != other.value[i] {
                return false;
            }
            i += 1;
        }
        assert(self.value@ =~= other.value@);
        true
    }
}

} // verus!
