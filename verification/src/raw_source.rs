//! A source of generated code without any mapping to an original.
use crate::mapping::{GeneratedInfo, Mapping};
use crate::stream::{MapOptions, Offset, SectionEntry, SectionOutput, StreamEvent, StreamOutput};
use crate::utf16_len::{utf16_len, utf16_units};
use vstd::prelude::*;
use vstd::string::StringExecFns;

verus! {

/// Text `t` cut after each `\n`: the lines it completes, each with its `\n`,
/// and the characters after the last `\n`.
pub open spec fn split_lines(t: Seq<char>) -> (Seq<Seq<char>>, Seq<char>)
    decreases t.len(),
{
    if t.len() == 0 {
        (Seq::empty(), Seq::empty())
    } else {
        let (done, cur) = split_lines(t.drop_last());
        if t.last() == '\n' {
            (done.push(cur.push('\n')), Seq::empty())
        } else {
            (done, cur.push(t.last()))
        }
    }
}

/// Number of `\n` in `t`.
pub open spec fn newline_count(t: Seq<char>) -> nat {
    split_lines(t).0.len()
}

/// The characters after the last `\n` of `t`.
pub open spec fn last_line(t: Seq<char>) -> Seq<char> {
    split_lines(t).1
}

/// The lines of `t`, each with its `\n`, and the rest after the last `\n` when
/// it is not empty.
pub open spec fn line_chunks(t: Seq<char>) -> Seq<Seq<char>> {
    let (done, cur) = split_lines(t);
    if cur.len() > 0 {
        done.push(cur)
    } else {
        done
    }
}

/// Whether the end position of `t` fits in `u32`.
pub open spec fn info_fits(t: Seq<char>) -> bool {
    newline_count(t) + 1 <= u32::MAX && utf16_units(last_line(t)) <= u32::MAX
}

/// Where text `t` ends: one line more than it has `\n`, and as many UTF-16 code
/// units after the last `\n` as there are.
pub open spec fn text_info(t: Seq<char>) -> GeneratedInfo {
    GeneratedInfo {
        generated_line: (newline_count(t) + 1) as u32,
        generated_column: utf16_units(last_line(t)) as u32,
    }
}

/// The chunk events of text `t` on its own: each line at column 0 of its line,
/// without original.
pub open spec fn raw_line_events(t: Seq<char>) -> Seq<crate::stream::EventView> {
    Seq::new(
        line_chunks(t).len(),
        |k: int|
            crate::stream::EventView::Chunk(
                Some(line_chunks(t)[k]),
                Mapping { generated_line: (k + 1) as u32, generated_column: 0, original: None },
            ),
    )
}

/// The chunk stream of text `t` under `opts`: with final positions only, no
/// chunk at all; otherwise its lines.
pub open spec fn raw_stream(t: Seq<char>, opts: MapOptions) -> crate::stream::StreamView {
    crate::stream::StreamView {
        events: if opts.final_source {
            Seq::empty()
        } else {
            raw_line_events(t)
        },
        info: text_info(t),
    }
}

/// `String::push`: `c` is appended.
#[verifier::external_body]
pub(crate) fn push_char(s: &mut String, c: char)
    ensures
        final(s)@ == old(s)@.push(c),
{
    s.push(c);
}

/// A source of generated code, given as a string, without any mapping.
#[derive(Debug)]
pub struct RawStringSource {
    value: String,
}

impl View for RawStringSource {
    type V = Seq<char>;

    closed spec fn view(&self) -> Seq<char> {
        self.value@
    }
}

impl RawStringSource {
    pub fn from_string(value: String) -> (r: Self)
        ensures
            r@ == value@,
    {
        RawStringSource { value }
    }

    pub fn from_str(value: &str) -> (r: Self)
        ensures
            r@ == value@,
    {
        RawStringSource { value: value.to_owned() }
    }

    /// The generated code.
    pub fn source(&self) -> (r: &str)
        ensures
            r@ == self@,
    {
        self.value.as_str()
    }

    /// A copy of the source.
    pub fn clone(&self) -> (r: Self)
        ensures
            r@ == self@,
    {
        RawStringSource { value: self.value.clone() }
    }

    /// Where the generated code ends.
    pub fn generated_info(&self) -> (r: GeneratedInfo)
        requires
            info_fits(self@),
        ensures
            r == text_info(self@),
    {
        let mut lines: u32 = 1;
        let mut current_line = String::new();
        let ghost t = self@;
        for c in it: self.value.as_str().chars()
            invariant
                t == self@,
                it.seq() == t,
                info_fits(t),
                lines == newline_count(t.take(it.index() as int)) + 1,
                current_line@ == last_line(t.take(it.index() as int)),
        {
            let ghost k = it.index() as int;
            proof {
                assert(t.take(k + 1).drop_last() =~= t.take(k));
                lemma_newline_count_prefix(t, k + 1);
            }
            if c == '\n' {
                lines += 1;
                current_line = String::new();
            } else {
                push_char(&mut current_line, c);
            }
        }
        proof {
            assert(t.take(t.len() as int) =~= t);
        }
        let column = utf16_len(current_line.as_str());
        GeneratedInfo { generated_line: lines, generated_column: column as u32 }
    }
}

impl RawStringSource {
    /// The chunk stream of the source: see [`raw_stream`].
    pub fn chunks(&self, options: &MapOptions) -> (r: StreamOutput)
        requires
            info_fits(self@),
        ensures
            r@ == raw_stream(self@, *options),
    {
        let info = self.generated_info();
        if options.final_source {
            let r = StreamOutput { events: Vec::new(), info };
            assert(r@.events =~= raw_stream(self@, *options).events);
            return r;
        }
        let mut events: Vec<StreamEvent> = Vec::new();
        let mut line: u32 = 1;
        let mut current_line = String::new();
        let ghost t = self@;
        for c in it: self.value.as_str().chars()
            invariant
                t == self@,
                it.seq() == t,
                info_fits(t),
                line == newline_count(t.take(it.index() as int)) + 1,
                current_line@ == last_line(t.take(it.index() as int)),
                events@.len() == newline_count(t.take(it.index() as int)),
                forall|k: int| 0 <= k < events@.len() ==> #[trigger] events@[k]@ == crate::stream::EventView::Chunk(
                    Some(split_lines(t.take(it.index() as int)).0[k]),
                    Mapping { generated_line: (k + 1) as u32, generated_column: 0, original: None },
                ),
        {
            let ghost k = it.index() as int;
            proof {
                assert(t.take(k + 1).drop_last() =~= t.take(k));
                lemma_newline_count_prefix(t, k + 1);
            }
            push_char(&mut current_line, c);
            if c == '\n' {
                events.push(
                    StreamEvent::Chunk(
                        Some(current_line),
                        Mapping { generated_line: line, generated_column: 0, original: None },
                    ),
                );
                line += 1;
                current_line = String::new();
            }
        }
        proof {
            assert(t.take(t.len() as int) =~= t);
        }
        if current_line.as_str().as_bytes().len() > 0 {
            proof {
                assert(current_line@.len() > 0) by {
                    if current_line@.len() == 0 {
                        assert(vstd::utf8::encode_utf8(current_line@) =~= Seq::<u8>::empty());
                    }
                }
            }
            events.push(
                StreamEvent::Chunk(
                    Some(current_line),
                    Mapping { generated_line: line, generated_column: 0, original: None },
                ),
            );
        } else {
            proof {
                if current_line@.len() > 0 {
                    vstd::utf8::encode_utf8_first_scalar(current_line@);
                }
            }
        }
        let r = StreamOutput { events, info };
        assert(r@.events =~= raw_stream(self@, *options).events);
        r
    }
}

impl RawStringSource {
    /// The section stream of the source: one section at its start, without a
    /// source map.
    pub fn sections(&self) -> (r: SectionOutput)
        requires
            info_fits(self@),
        ensures
            r.sections@.len() == 1,
            r.sections@[0].offset == (Offset { line: 0, column: 0 }),
            r.sections@[0].map is None,
            r.info == text_info(self@),
    {
        let info = self.generated_info();
        let mut sections = Vec::new();
        sections.push(SectionEntry { offset: Offset { line: 0, column: 0 }, map: None });
        SectionOutput { sections, info }
    }

    /// Number of sections the source has.
    pub fn sections_size_hint(&self) -> (r: usize)
        ensures
            r == 1,
    {
        1
    }

    /// Size of the generated code in bytes.
    pub fn size(&self) -> (r: usize)
        ensures
            r == vstd::utf8::encode_utf8(self@).len(),
    {
        self.value.as_str().as_bytes().len()
    }
}

/// `str`'s `Debug` text: the string in double quotes, with escapes.
pub uninterp spec fn str_debug(s: Seq<char>) -> Seq<char>;

/// `<str as Debug>::fmt` through `format!("{:?}", ..)`: the string's debug text.
#[verifier::external_body]
fn debug_str(s: &str) -> (r: String)
    ensures
        r@ == str_debug(s@),
{
    format!("{:?}", s)
}

/// `n` spaces.
pub open spec fn spaces(n: nat) -> Seq<char> {
    Seq::new(n, |i: int| ' ')
}

pub(crate) fn push_spaces(s: &mut String, n: usize)
    ensures
        final(s)@ == old(s)@ + spaces(n as nat),
{
    let mut i: usize = 0;
    while i < n
        invariant
            i <= n,
            s@ == old(s)@ + spaces(i as nat),
        decreases n - i,
    {
        s.append(" ");
        proof {
            reveal_strlit(" ");
            assert(spaces((i + 1) as nat) =~= spaces(i as nat) + " "@);
        }
        i += 1;
    }
}

/// The debug text of a raw source, indented by `indent` spaces.
pub open spec fn raw_debug(v: Seq<char>, indent: nat) -> Seq<char> {
    spaces(indent) + "RawStringSource::from_static("@ + str_debug(v) + ").boxed()"@
}

impl RawStringSource {
    /// The debug text of the source, indented by `indent` spaces.
    pub fn debug_string(&self, indent: usize) -> (r: String)
        ensures
            r@ == raw_debug(self@, indent as nat),
    {
        let mut r = String::new();
        push_spaces(&mut r, indent);
        r.append("RawStringSource::from_static(");
        let d = debug_str(self.source());
        r.append(d.as_str());
        r.append(").boxed()");
        assert(r@ =~= raw_debug(self@, indent as nat));
        r
    }
}

impl RawStringSource {
    /// Whether the two sources have the same text.
    pub fn same_text(&self, other: &Self) -> (r: bool)
        ensures
            r == (self@ == other@),
    {
        self.value == other.value
    }
}

/// Whether the end position of `s` fits in `u32`: see [`info_fits`].
pub fn end_fits(s: &str) -> (r: bool)
    ensures
        r == info_fits(s@),
{
    let mut lines: u32 = 0;
    let mut current_line = String::new();
    let ghost t = s@;
    for c in it: s.chars()
        invariant
            t == s@,
            it.seq() == t,
            lines == newline_count(t.take(it.index() as int)),
            lines < u32::MAX,
            current_line@ == last_line(t.take(it.index() as int)),
    {
        let ghost k = it.index() as int;
        proof {
            assert(t.take(k + 1).drop_last() =~= t.take(k));
            lemma_newline_count_prefix(t, k + 1);
        }
        if c == '\n' {
            if lines == u32::MAX - 1 {
                return false;
            }
            lines += 1;
            current_line = String::new();
        } else {
            push_char(&mut current_line, c);
        }
    }
    proof {
        assert(t.take(t.len() as int) =~= t);
    }
    utf16_len(current_line.as_str()) <= 0xFFFF_FFFFusize
}

pub(crate) proof fn lemma_newline_count_prefix(t: Seq<char>, k: int)
    requires
        0 <= k <= t.len(),
    ensures
        newline_count(t.take(k)) <= newline_count(t),
    decreases t.len() - k,
{
    if k < t.len() {
        lemma_newline_count_prefix(t, k + 1);
        assert(t.take(k + 1).drop_last() =~= t.take(k));
    } else {
        assert(t.take(k) =~= t);
    }
}

} // verus!
