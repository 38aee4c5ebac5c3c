//! JSON text of a source map.
use json_escape_simd::escape_into;
use vstd::prelude::*;
use vstd::utf8::*;

verus! {

broadcast use {char_is_scalar, encode_utf8_decode_utf8, encode_utf8_valid_utf8};

/// A source map (revision 3), by its fields.
pub struct SourceMap {
    pub file: Option<String>,
    pub source_root: Option<String>,
    pub sources: Vec<String>,
    pub sources_content: Vec<String>,
    pub names: Vec<String>,
    pub mappings: String,
    pub ignore_list: Option<Vec<u32>>,
    pub debug_id: Option<String>,
}

/// A hexadecimal digit, in lower case.
pub open spec fn hex_digit(d: u32) -> char {
    if d < 10 {
        (48 + d) as char
    } else {
        (87 + d) as char
    }
}

/// How one character is written inside a JSON string: `"` and `\` get a
/// backslash, the control characters below U+0020 get their short escape or
/// `\u00XX`, every other character stands for itself.
pub open spec fn escape_char(c: char) -> Seq<char> {
    let u = c as u32;
    if c == '"' {
        seq!['\\', '"']
    } else if c == '\\' {
        seq!['\\', '\\']
    } else if u == 8 {
        seq!['\\', 'b']
    } else if u == 9 {
        seq!['\\', 't']
    } else if u == 10 {
        seq!['\\', 'n']
    } else if u == 12 {
        seq!['\\', 'f']
    } else if u == 13 {
        seq!['\\', 'r']
    } else if u < 0x20 {
        seq!['\\', 'u', '0', '0', hex_digit(u / 16), hex_digit(u % 16)]
    } else {
        seq![c]
    }
}

/// The characters of `s`, each written as inside a JSON string.
pub open spec fn escape_chars(s: Seq<char>) -> Seq<char>
    decreases s.len(),
{
    if s.len() == 0 {
        Seq::empty()
    } else {
        escape_chars(s.drop_last()) + escape_char(s.last())
    }
}

/// `s` as a JSON string literal, quotes included.
pub open spec fn json_quoted(s: Seq<char>) -> Seq<char> {
    seq!['"'] + escape_chars(s) + seq!['"']
}

/// Number of bytes of the UTF-8 encoding of `s`.
pub open spec fn utf8_len(s: Seq<char>) -> nat {
    encode_utf8(s).len()
}

pub proof fn lemma_encode_utf8_concat(a: Seq<char>, b: Seq<char>)
    ensures
        encode_utf8(a + b) == encode_utf8(a) + encode_utf8(b),
    decreases a.len(),
{
    if a.len() == 0 {
        assert(a + b =~= b);
        assert(encode_utf8(a) + encode_utf8(b) =~= encode_utf8(b));
    } else {
        lemma_encode_utf8_concat(a.drop_first(), b);
        assert((a + b).drop_first() =~= a.drop_first() + b);
        assert((a + b)[0] == a[0]);
        assert(encode_scalar(a[0] as u32) + (encode_utf8(a.drop_first()) + encode_utf8(b))
            =~= encode_scalar(a[0] as u32) + encode_utf8(a.drop_first()) + encode_utf8(b));
    }
}

/// Characters below U+0080 take one byte each.
pub open spec fn all_ascii(s: Seq<char>) -> bool {
    forall|i: int| 0 <= i < s.len() ==> (#[trigger] s[i] as u32) < 0x80
}

proof fn lemma_utf8_len_ascii(s: Seq<char>)
    requires
        all_ascii(s),
    ensures
        utf8_len(s) == s.len(),
    decreases s.len(),
{
    if s.len() > 0 {
        assert(all_ascii(s.drop_first()));
        lemma_utf8_len_ascii(s.drop_first());
    }
}

proof fn lemma_utf8_len_single(c: char)
    ensures
        1 <= utf8_len(seq![c]) <= 4,
{
    assert(seq![c].drop_first() =~= Seq::<char>::empty());
    assert(encode_utf8(Seq::<char>::empty()) =~= Seq::<u8>::empty());
    assert(encode_utf8(seq![c]) =~= encode_scalar(c as u32));
}

proof fn lemma_escape_char_len(c: char)
    ensures
        utf8_len(escape_char(c)) <= 6 * utf8_len(seq![c]),
        (c as u32) < 0x80 ==> all_ascii(escape_char(c)),
{
    lemma_utf8_len_single(c);
    let u = c as u32;
    let e = escape_char(c);
    if c == '"' || c == '\\' || u == 8 || u == 9 || u == 10 || u == 12 || u == 13 || u < 0x20 {
        assert(all_ascii(e));
        lemma_utf8_len_ascii(e);
    }
}

/// Escaping takes at most six bytes for every byte of input.
pub proof fn lemma_escape_len(s: Seq<char>)
    ensures
        utf8_len(escape_chars(s)) <= 6 * utf8_len(s),
    decreases s.len(),
{
    if s.len() > 0 {
        lemma_escape_len(s.drop_last());
        lemma_escape_char_len(s.last());
        lemma_encode_utf8_concat(escape_chars(s.drop_last()), escape_char(s.last()));
        lemma_encode_utf8_concat(s.drop_last(), seq![s.last()]);
        assert(s.drop_last() + seq![s.last()] =~= s);
    }
}

/// A JSON string literal takes at most six bytes for every byte of its content,
/// and two for the quotes.
pub proof fn lemma_json_quoted_len(s: Seq<char>)
    ensures
        utf8_len(json_quoted(s)) <= 6 * utf8_len(s) + 2,
{
    lemma_escape_len(s);
    lemma_encode_utf8_concat(seq!['"'], escape_chars(s));
    lemma_encode_utf8_concat(seq!['"'] + escape_chars(s), seq!['"']);
    lemma_utf8_len_ascii(seq!['"']);
}

/// `json_escape_simd::escape_into`: appends `value` as a JSON string literal,
/// quotes included, in UTF-8. It first reserves room for six bytes per input
/// byte and 35 more, and `Vec::reserve` panics past `isize::MAX` bytes.
#[verifier::external_body]
fn escape_str_into(value: &str, dst: &mut Vec<u8>)
    requires
        old(dst)@.len() + 6 * utf8_len(value@) + 35 <= isize::MAX,
    ensures
        final(dst)@ == old(dst)@ + encode_utf8(json_quoted(value@)),
{
    escape_into(value, dst);
}

/// `String::from_utf8`: the bytes as a string when they are valid UTF-8.
#[verifier::external_body]
fn string_from_utf8(bytes: Vec<u8>) -> (r: Option<String>)
    ensures
        valid_utf8(bytes@) ==> r is Some,
        r matches Some(s) ==> encode_utf8(s@) == bytes@,
{
    match String::from_utf8(bytes) {
        Ok(s) => Some(s),
        Err(_) => None,
    }
}

/// The characters of each string.
pub open spec fn str_views(items: Seq<String>) -> Seq<Seq<char>> {
    items.map_values(|s: String| s@)
}

/// The items as JSON string literals separated by commas.
pub open spec fn json_list(items: Seq<Seq<char>>) -> Seq<char>
    decreases items.len(),
{
    if items.len() == 0 {
        Seq::empty()
    } else if items.len() == 1 {
        json_quoted(items[0])
    } else {
        json_list(items.drop_last()) + seq![','] + json_quoted(items.last())
    }
}

/// Total UTF-8 bytes of the items.
pub open spec fn total_utf8_len(items: Seq<Seq<char>>) -> nat
    decreases items.len(),
{
    if items.len() == 0 {
        0
    } else {
        total_utf8_len(items.drop_last()) + utf8_len(items.last())
    }
}

/// Room a JSON list of the items may take: six bytes per byte of content, the
/// quotes, and the commas.
pub open spec fn list_budget(items: Seq<Seq<char>>) -> int {
    6 * total_utf8_len(items) + 2 * items.len() + if items.len() > 0 {
        items.len() - 1
    } else {
        0
    }
}

/// The decimal digits of `n`.
pub open spec fn decimal(n: nat) -> Seq<char>
    decreases n,
{
    if n < 10 {
        seq![(48 + n) as char]
    } else {
        decimal(n / 10) + seq![(48 + n % 10) as char]
    }
}

/// The numbers in decimal, separated by commas.
pub open spec fn number_list(items: Seq<u32>) -> Seq<char>
    decreases items.len(),
{
    if items.len() == 0 {
        Seq::empty()
    } else if items.len() == 1 {
        decimal(items[0] as nat)
    } else {
        number_list(items.drop_last()) + seq![','] + decimal(items.last() as nat)
    }
}

pub open spec fn pow10(k: nat) -> nat
    decreases k,
{
    if k == 0 {
        1
    } else {
        10 * pow10((k - 1) as nat)
    }
}

proof fn lemma_decimal_len(n: nat, k: nat)
    requires
        k >= 1,
        n < pow10(k),
    ensures
        decimal(n).len() <= k,
    decreases k,
{
    if n >= 10 {
        let k1 = (k - 1) as nat;
        if k1 == 0 {
            assert(pow10(k) == 10) by {
                reveal_with_fuel(pow10, 2);
            }
        } else {
            assert(n / 10 < pow10(k1)) by (nonlinear_arith)
                requires
                    n < 10 * pow10(k1),
            ;
            lemma_decimal_len(n / 10, k1);
        }
    }
}

proof fn lemma_decimal_ascii(n: nat)
    ensures
        all_ascii(decimal(n)),
        n <= u32::MAX ==> decimal(n).len() <= 10,
        n <= u32::MAX ==> utf8_len(decimal(n)) <= 10,
    decreases n,
{
    if n >= 10 {
        lemma_decimal_ascii(n / 10);
    }
    lemma_utf8_len_ascii(decimal(n));
    if n <= u32::MAX {
        assert(pow10(10) == 10000000000) by {
            reveal_with_fuel(pow10, 11);
        }
        lemma_decimal_len(n, 10);
    }
}

proof fn lemma_number_list_len(items: Seq<u32>)
    ensures
        utf8_len(number_list(items)) <= 10 * items.len() + if items.len() > 0 {
            items.len() - 1
        } else {
            0
        },
    decreases items.len(),
{
    if items.len() == 1 {
        lemma_decimal_ascii(items[0] as nat);
    } else if items.len() > 1 {
        lemma_number_list_len(items.drop_last());
        lemma_decimal_ascii(items.last() as nat);
        lemma_encode_utf8_concat(number_list(items.drop_last()), seq![',']);
        lemma_encode_utf8_concat(number_list(items.drop_last()) + seq![','], decimal(items.last() as nat));
        lemma_utf8_len_ascii(seq![',']);
    }
}

/// A string buffer that grows by pieces of text and is handed out at the end.
pub struct PreAllocatedString {
    buf: Vec<u8>,
    text: Ghost<Seq<char>>,
}

impl PreAllocatedString {
    /// The text so far.
    pub closed spec fn view(&self) -> Seq<char> {
        self.text@
    }

    /// Bytes of the text so far.
    pub closed spec fn byte_len(&self) -> nat {
        self.buf@.len()
    }

    pub closed spec fn wf(&self) -> bool {
        self.buf@ == encode_utf8(self.text@)
    }

    pub fn new(max_segments: usize) -> (r: Self)
        ensures
            r.wf(),
            r.view() == Seq::<char>::empty(),
            r.byte_len() == 0,
    {
        let r = PreAllocatedString { buf: Vec::with_capacity(max_segments), text: Ghost(Seq::empty()) };
        assert(encode_utf8(Seq::<char>::empty()) =~= Seq::<u8>::empty());
        r
    }

    #[inline]
    pub fn push(&mut self, s: &str)
        requires
            old(self).wf(),
        ensures
            final(self).wf(),
            final(self).view() == old(self).view() + s@,
            final(self).byte_len() == old(self).byte_len() + utf8_len(s@),
    {
        let bytes = s.as_bytes();
        let mut i: usize = 0;
        let ghost start = self.buf@;
        while i < bytes.len()
            invariant
                i <= bytes@.len(),
                self.text == old(self).text,
                start == old(self).buf@,
                bytes@ == encode_utf8(s@),
                self.buf@ == start + bytes@.take(i as int),
            decreases bytes@.len() - i,
        {
            self.buf.push(bytes[i]);
            assert(bytes@.take(i + 1) =~= bytes@.take(i as int).push(bytes@[i as int]));
            i += 1;
        }
        assert(bytes@.take(i as int) =~= bytes@);
        proof {
            lemma_encode_utf8_concat(self.text@, s@);
        }
        self.text = Ghost(self.text@ + s@);
    }

    #[inline]
    pub fn push_str(&mut self, s: &str)
        requires
            old(self).wf(),
        ensures
            final(self).wf(),
            final(self).view() == old(self).view() + s@,
            final(self).byte_len() == old(self).byte_len() + utf8_len(s@),
    {
        self.push(s);
    }

    /// Appends `s` as a JSON string literal.
    pub fn push_escaped(&mut self, s: &str)
        requires
            old(self).wf(),
            old(self).byte_len() + 6 * utf8_len(s@) + 35 <= isize::MAX,
        ensures
            final(self).wf(),
            final(self).view() == old(self).view() + json_quoted(s@),
            final(self).byte_len() == old(self).byte_len() + utf8_len(json_quoted(s@)),
    {
        escape_str_into(s, &mut self.buf);
        proof {
            lemma_encode_utf8_concat(self.text@, json_quoted(s@));
        }
        self.text = Ghost(self.text@ + json_quoted(s@));
    }

    /// Appends the items as JSON string literals separated by commas.
    #[inline]
    pub fn push_list(&mut self, items: &Vec<String>)
        requires
            old(self).wf(),
            old(self).byte_len() + list_budget(str_views(items@)) + 35 <= isize::MAX,
        ensures
            final(self).wf(),
            final(self).view() == old(self).view() + json_list(str_views(items@)),
            final(self).byte_len() <= old(self).byte_len() + list_budget(str_views(items@)),
    {
        let ghost views = str_views(items@);
        let ghost start_text = self.view();
        let ghost start_len = self.byte_len();
        if items.len() == 0 {
            assert(start_text + json_list(views) =~= start_text);
            return;
        }
        proof {
            lemma_list_budget_prefix(views, 1);
            assert(views.take(1).drop_last() =~= Seq::<Seq<char>>::empty());
            assert(views.take(1).last() == views[0]);
        }
        self.push_escaped(items[0].as_str());
        proof {
            lemma_json_quoted_len(views[0]);
            assert(json_list(views.take(1)) == json_quoted(views[0]));
            assert(total_utf8_len(views.take(1).drop_last()) == 0);
            assert(total_utf8_len(views.take(1)) == utf8_len(views[0]));
            assert(list_budget(views.take(1)) == 6 * utf8_len(views[0]) + 2);
        }
        let mut i: usize = 1;
        while i < items.len()
            invariant
                views == str_views(items@),
                1 <= i <= items@.len(),
                start_len + list_budget(views) + 35 <= isize::MAX,
                self.wf(),
                self.view() == start_text + json_list(views.take(i as int)),
                self.byte_len() <= start_len + list_budget(views.take(i as int)),
            decreases items@.len() - i,
        {
            proof {
                lemma_list_budget_prefix(views, i + 1);
                assert(views.take(i + 1).drop_last() =~= views.take(i as int));
                assert(views.take(i + 1).last() == views[i as int]);
            }
            self.push(",");
            proof {
                reveal_strlit(",");
                lemma_utf8_len_ascii(","@);
            }
            self.push_escaped(items[i].as_str());
            proof {
                lemma_json_quoted_len(views[i as int]);
                assert(","@ =~= seq![',']);
                assert(self.view() =~= start_text + json_list(views.take(i + 1)));
            }
            i += 1;
        }
        assert(views.take(i as int) =~= views);
    }

    /// Appends the numbers in decimal, separated by commas.
    pub fn push_number_list(&mut self, items: &Vec<u32>)
        requires
            old(self).wf(),
        ensures
            final(self).wf(),
            final(self).view() == old(self).view() + number_list(items@),
            final(self).byte_len() == old(self).byte_len() + utf8_len(number_list(items@)),
    {
        let ghost start_text = self.view();
        if items.len() == 0 {
            assert(start_text + number_list(items@) =~= start_text);
            return;
        }
        self.push_decimal(items[0]);
        assert(items@.take(1).drop_last() =~= Seq::<u32>::empty());
        let mut i: usize = 1;
        while i < items.len()
            invariant
                1 <= i <= items@.len(),
                self.wf(),
                self.view() == start_text + number_list(items@.take(i as int)),
            decreases items@.len() - i,
        {
            self.push(",");
            proof {
                reveal_strlit(",");
                assert(","@ =~= seq![',']);
                assert(items@.take(i + 1).drop_last() =~= items@.take(i as int));
            }
            self.push_decimal(items[i]);
            assert(self.view() =~= start_text + number_list(items@.take(i + 1)));
            i += 1;
        }
        assert(items@.take(i as int) =~= items@);
        proof {
            lemma_encode_utf8_concat(start_text, number_list(items@));
        }
    }

    /// Appends the decimal digits of `n`.
    pub fn push_decimal(&mut self, n: u32)
        requires
            old(self).wf(),
        ensures
            final(self).wf(),
            final(self).view() == old(self).view() + decimal(n as nat),
        decreases n,
    {
        if n >= 10 {
            self.push_decimal(n / 10);
        }
        let d: u8 = (n % 10) as u8 + 48;
        let ghost c = (48 + (n as nat) % 10) as char;
        let ghost before = self.text@;
        self.buf.push(d);
        proof {
            let cu: u32 = (48 + n % 10) as u32;
            assert(c as u32 == cu);
            assert(cu & 0x7f == cu) by (bit_vector)
                requires
                    cu < 128,
            ;
            assert(encode_utf8(seq![c]) =~= seq![d]) by {
                assert(seq![c].drop_first() =~= Seq::<char>::empty());
                assert(encode_utf8(Seq::<char>::empty()) =~= Seq::<u8>::empty());
            }
            lemma_encode_utf8_concat(self.text@, seq![c]);
            assert(old(self).view() + decimal(n as nat) =~= if n >= 10 {
                old(self).view() + decimal((n / 10) as nat) + seq![c]
            } else {
                old(self).view() + seq![c]
            });
        }
        self.text = Ghost(before + seq![c]);
        assert(self.buf@ =~= encode_utf8(before) + seq![d]);
    }

    #[inline]
    pub fn consume(self) -> (r: String)
        requires
            self.wf(),
        ensures
            r@ == self.view(),
    {
        let ghost text = self.text@;
        proof {
            assert(valid_utf8(encode_utf8(text)));
        }
        match string_from_utf8(self.buf) {
            Some(s) => {
                proof {
                    assert(decode_utf8(encode_utf8(s@)) == s@);
                    assert(decode_utf8(encode_utf8(text)) == text);
                }
                s
            },
            None => String::new(),
        }
    }
}

proof fn lemma_list_budget_prefix(items: Seq<Seq<char>>, k: int)
    requires
        0 <= k <= items.len(),
    ensures
        list_budget(items.take(k)) <= list_budget(items),
    decreases items.len() - k,
{
    if k < items.len() {
        lemma_list_budget_prefix(items, k + 1);
        assert(items.take(k + 1).drop_last() =~= items.take(k));
    } else {
        assert(items.take(k) =~= items);
    }
}

/// Whether some source has non-empty content.
pub open spec fn any_sources_content(sm: SourceMap) -> bool {
    exists|i: int| 0 <= i < sm.sources_content@.len() && (#[trigger] sm.sources_content@[i])@.len() > 0
}

pub open spec fn opt_view(o: Option<String>) -> Seq<char> {
    match o {
        Some(s) => s@,
        None => Seq::empty(),
    }
}

/// The JSON text of a source map: `version`, then `file` and `sourceRoot` when
/// present, `sources`, `sourcesContent` when some content is non-empty, `names`,
/// `mappings` as it is, `ignoreList` and `debugId` when present. Strings are
/// escaped JSON string literals, except `mappings` and `debugId`, which are
/// written unescaped between quotes.
pub open spec fn json_chars(sm: SourceMap) -> Seq<char> {
    let file_part = match sm.file {
        Some(f) => "\"file\":"@ + json_quoted(f@) + ","@,
        None => Seq::empty(),
    };
    let root_part = match sm.source_root {
        Some(r) => "\"sourceRoot\":"@ + json_quoted(r@) + ","@,
        None => Seq::empty(),
    };
    let content_part = if any_sources_content(sm) {
        "],\"sourcesContent\":["@ + json_list(str_views(sm.sources_content@))
    } else {
        Seq::empty()
    };
    let ignore_part = match sm.ignore_list {
        Some(l) => ",\"ignoreList\":["@ + number_list(l@) + "]"@,
        None => Seq::empty(),
    };
    let debug_part = match sm.debug_id {
        Some(d) => ",\"debugId\":\""@ + d@ + "\""@,
        None => Seq::empty(),
    };
    "{\"version\":3,"@ + file_part + root_part + "\"sources\":["@ + json_list(str_views(sm.sources@))
        + content_part + "],\"names\":["@ + json_list(str_views(sm.names@)) + "],\"mappings\":\""@
        + sm.mappings@ + "\""@ + ignore_part + debug_part + "}"@
}

pub open spec fn minus_one(n: int) -> int {
    if n > 0 {
        n - 1
    } else {
        0
    }
}

/// The room that [`to_json`] reserves for the JSON text of `sm`.
pub open spec fn json_capacity(sm: SourceMap) -> int {
    let has_sc = any_sources_content(sm);
    let n = sm.names@.len() as int;
    let s = sm.sources@.len() as int;
    let sc = if has_sc {
        sm.sources_content@.len() as int
    } else {
        0
    };
    let total = utf8_len(opt_view(sm.source_root)) + utf8_len(opt_view(sm.file)) + total_utf8_len(
        str_views(sm.names@),
    ) + total_utf8_len(str_views(sm.sources@)) + if has_sc {
        total_utf8_len(str_views(sm.sources_content@))
    } else {
        0
    };
    13 + (if sm.file is Some {
        10int
    } else {
        0
    }) + (if sm.source_root is Some {
        16int
    } else {
        0
    }) + 9 + 10 + 14 + 1 + (if has_sc {
        20int
    } else {
        0
    }) + 6 * total + 2 * (n + s + sc) + minus_one(n) + minus_one(s) + minus_one(sc) + (match sm.ignore_list {
        Some(l) => 16 + 10 * l@.len() + minus_one(l@.len() as int),
        None => 0,
    }) + 14 + utf8_len(sm.mappings@) + 1 + (match sm.debug_id {
        Some(d) => 13 + utf8_len(d@),
        None => 0,
    }) + 1
}

proof fn lemma_total_prefix(items: Seq<Seq<char>>, k: int)
    requires
        0 <= k <= items.len(),
    ensures
        total_utf8_len(items.take(k)) <= total_utf8_len(items),
    decreases items.len() - k,
{
    if k < items.len() {
        lemma_total_prefix(items, k + 1);
        assert(items.take(k + 1).drop_last() =~= items.take(k));
    } else {
        assert(items.take(k) =~= items);
    }
}

fn sum_utf8_len(items: &Vec<String>, acc: usize) -> (r: usize)
    requires
        acc + total_utf8_len(str_views(items@)) <= usize::MAX,
    ensures
        r == acc + total_utf8_len(str_views(items@)),
{
    let ghost views = str_views(items@);
    let mut r = acc;
    let mut i: usize = 0;
    while i < items.len()
        invariant
            views == str_views(items@),
            i <= items@.len(),
            acc + total_utf8_len(views) <= usize::MAX,
            r == acc + total_utf8_len(views.take(i as int)),
        decreases items@.len() - i,
    {
        proof {
            lemma_total_prefix(views, i + 1);
            assert(views.take(i + 1).drop_last() =~= views.take(i as int));
        }
        r += items[i].as_str().as_bytes().len();
        i += 1;
    }
    assert(views.take(i as int) =~= views);
    r
}

fn all_empty(items: &Vec<String>) -> (r: bool)
    ensures
        r == (forall|i: int| 0 <= i < items@.len() ==> (#[trigger] items@[i])@.len() == 0),
{
    let mut i: usize = 0;
    while i < items.len()
        invariant
            i <= items@.len(),
            forall|j: int| 0 <= j < i ==> (#[trigger] items@[j])@.len() == 0,
        decreases items@.len() - i,
    {
        if !items[i].as_str().is_empty() {
            return false;
        }
        i += 1;
    }
    true
}

fn opt_utf8_len(o: &Option<String>) -> (r: usize)
    ensures
        r == utf8_len(opt_view(*o)),
{
    match o {
        Some(s) => s.as_str().as_bytes().len(),
        None => {
            assert(encode_utf8(Seq::<char>::empty()) =~= Seq::<u8>::empty());
            0
        },
    }
}

proof fn lemma_ascii_lit(s: Seq<char>, n: nat)
    requires
        all_ascii(s),
        s.len() == n,
    ensures
        utf8_len(s) == n,
{
    lemma_utf8_len_ascii(s);
}

proof fn lemma_json_list_len(items: Seq<Seq<char>>)
    ensures
        utf8_len(json_list(items)) <= list_budget(items),
    decreases items.len(),
{
    if items.len() == 1 {
        lemma_json_quoted_len(items[0]);
        assert(items.drop_last() =~= Seq::<Seq<char>>::empty());
    } else if items.len() > 1 {
        lemma_json_list_len(items.drop_last());
        lemma_json_quoted_len(items.last());
        lemma_encode_utf8_concat(json_list(items.drop_last()), seq![',']);
        lemma_encode_utf8_concat(json_list(items.drop_last()) + seq![','], json_quoted(items.last()));
        lemma_utf8_len_ascii(seq![',']);
    } else {
        assert(encode_utf8(Seq::<char>::empty()) =~= Seq::<u8>::empty());
    }
}

/// The room, in bytes, that the JSON text of `sourcemap` is given.
#[verifier::rlimit(60)]
fn capacity(sourcemap: &SourceMap) -> (r: usize)
    requires
        json_capacity(*sourcemap) <= usize::MAX,
    ensures
        r == json_capacity(*sourcemap),
{
    let ghost sm = *sourcemap;
    let file_len = opt_utf8_len(&sourcemap.file);
    let root_len = opt_utf8_len(&sourcemap.source_root);
    let names_count = sourcemap.names.len();
    let sources_count = sourcemap.sources.len();
    let has_sources_content = !sourcemap.sources_content.is_empty() && !all_empty(&sourcemap.sources_content);
    assert(has_sources_content == any_sources_content(sm));
    let sc_count = if has_sources_content {
        sourcemap.sources_content.len()
    } else {
        0
    };
    // Accumulate total string bytes across all collections
    let mut total_string_bytes: usize = root_len + file_len;
    total_string_bytes = sum_utf8_len(&sourcemap.names, total_string_bytes);
    total_string_bytes = sum_utf8_len(&sourcemap.sources, total_string_bytes);
    if has_sources_content {
        total_string_bytes = sum_utf8_len(&sourcemap.sources_content, total_string_bytes);
    }
    let mappings_len = sourcemap.mappings.as_str().as_bytes().len();
    let mut max_segments = 0usize;
    // {"version":3,
    max_segments += 13;
    // Optional "file":"...",
    if sourcemap.file.is_some() {
        max_segments += 8 + 2;
    }
    // Optional "sourceRoot":"...",
    if sourcemap.source_root.is_some() {
        max_segments += 14 + 2;
    }
    // JSON structure overhead
    max_segments += 9;  // "sources":[
    max_segments += 10;  // ],"names":[
    max_segments += 14;  // ],"mappings":"
    max_segments += 1;  // closing "
    if has_sources_content {
        max_segments += 20;  // ],"sourcesContent":[
    }
    // Worst-case escaping for strings (control chars -> \u0000)
    max_segments += 6 * total_string_bytes;
    // Quotes around each string item
    max_segments += 2 * (names_count + sources_count + sc_count);
    // Commas between array items
    max_segments += names_count.saturating_sub(1) + sources_count.saturating_sub(1) + sc_count.saturating_sub(1);
    // Optional ignoreList field
    if let Some(ignore_list) = &sourcemap.ignore_list {
        max_segments += 15;  // ,"ignoreList":[
        max_segments += 1;  // ]
        let ig_count = ignore_list.len();
        // Estimate 10 digits per number (max u32: 4,294,967,295)
        max_segments += 10 * ig_count + ig_count.saturating_sub(1);
    }
    // ],"mappings":"
    max_segments += 14;
    max_segments += mappings_len;
    max_segments += 1;  // closing "
    // Optional ,"debugId":"..."
    if let Some(debug_id) = &sourcemap.debug_id {
        max_segments += 12;  // ,"debugId":"
        max_segments += debug_id.as_str().as_bytes().len();
        max_segments += 1;  // closing "
    }
    // }
    max_segments += 1;
    max_segments
}

/// Writes the `version`, `file` and `sourceRoot` fields.
fn write_head(contents: &mut PreAllocatedString, sourcemap: &SourceMap)
    requires
        old(contents).wf(),
        old(contents).view() == Seq::<char>::empty(),
        old(contents).byte_len() == 0,
        json_capacity(*sourcemap) + 42 <= isize::MAX,
    ensures
        final(contents).wf(),
        final(contents).view() == "{\"version\":3,"@ + match sourcemap.file {
            Some(f) => "\"file\":"@ + json_quoted(f@) + ","@,
            None => Seq::empty(),
        } + match sourcemap.source_root {
            Some(r) => "\"sourceRoot\":"@ + json_quoted(r@) + ","@,
            None => Seq::empty(),
        },
        final(contents).byte_len() <= 13 + (if sourcemap.file is Some {
            12 + 6 * utf8_len(opt_view(sourcemap.file))
        } else {
            0
        }) + (if sourcemap.source_root is Some {
            18 + 6 * utf8_len(opt_view(sourcemap.source_root))
        } else {
            0
        }),
{
    proof {
        reveal_strlit("{\"version\":3,");
        lemma_ascii_lit("{\"version\":3,"@, 13);
        reveal_strlit(",");
        lemma_ascii_lit(","@, 1);
        reveal_strlit("\"file\":");
        lemma_ascii_lit("\"file\":"@, 7);
        reveal_strlit("\"sourceRoot\":");
        lemma_ascii_lit("\"sourceRoot\":"@, 13);
        lemma_json_capacity_parts(*sourcemap);
    }
    contents.push("{\"version\":3,");
    let ghost after_version = contents.view();
    if let Some(file) = &sourcemap.file {
        proof {
            lemma_json_quoted_len(file@);
        }
        contents.push("\"file\":");
        contents.push_escaped(file.as_str());
        contents.push(",");
    } else {
        assert(contents.view() =~= after_version + Seq::<char>::empty());
    }
    let ghost after_file = contents.view();
    if let Some(source_root) = &sourcemap.source_root {
        proof {
            lemma_json_quoted_len(source_root@);
        }
        contents.push("\"sourceRoot\":");
        contents.push_escaped(source_root.as_str());
        contents.push(",");
    } else {
        assert(contents.view() =~= after_file + Seq::<char>::empty());
    }
}

proof fn lemma_json_capacity_parts(sm: SourceMap)
    ensures
        json_capacity(sm) >= 13 + (if sm.file is Some {
            10 + 6 * utf8_len(opt_view(sm.file))
        } else {
            0
        }) + (if sm.source_root is Some {
            16 + 6 * utf8_len(opt_view(sm.source_root))
        } else {
            0
        }) + 9 + 10 + 15 + 15 + list_budget(str_views(sm.sources@)) + list_budget(str_views(sm.names@))
            + (if any_sources_content(sm) {
            20 + list_budget(str_views(sm.sources_content@))
        } else {
            0
        }) + utf8_len(sm.mappings@) + (match sm.ignore_list {
            Some(l) => 16 + 10 * l@.len() + minus_one(l@.len() as int),
            None => 0,
        }) + (match sm.debug_id {
            Some(d) => 13 + utf8_len(d@),
            None => 0,
        }) + 1,
{
    match sm.file {
        Some(f) => {},
        None => {
            assert(encode_utf8(Seq::<char>::empty()) =~= Seq::<u8>::empty());
        },
    }
    match sm.source_root {
        Some(f) => {},
        None => {
            assert(encode_utf8(Seq::<char>::empty()) =~= Seq::<u8>::empty());
        },
    }
}

/// Writes the `sources`, `sourcesContent` and `names` fields.
fn write_lists(contents: &mut PreAllocatedString, sourcemap: &SourceMap, has_sources_content: bool)
    requires
        old(contents).wf(),
        has_sources_content == any_sources_content(*sourcemap),
        old(contents).byte_len() + 11 + list_budget(str_views(sourcemap.sources@)) + (if has_sources_content {
            20 + list_budget(str_views(sourcemap.sources_content@))
        } else {
            0
        }) + 11 + list_budget(str_views(sourcemap.names@)) + 35 <= isize::MAX,
    ensures
        final(contents).wf(),
        final(contents).view() == old(contents).view() + "\"sources\":["@ + json_list(str_views(sourcemap.sources@))
            + (if has_sources_content {
            "],\"sourcesContent\":["@ + json_list(str_views(sourcemap.sources_content@))
        } else {
            Seq::empty()
        }) + "],\"names\":["@ + json_list(str_views(sourcemap.names@)),
        final(contents).byte_len() <= old(contents).byte_len() + 11 + list_budget(str_views(sourcemap.sources@))
            + (if has_sources_content {
            20 + list_budget(str_views(sourcemap.sources_content@))
        } else {
            0
        }) + 11 + list_budget(str_views(sourcemap.names@)),
{
    let ghost start = contents.view();
    proof {
        reveal_strlit("\"sources\":[");
        lemma_ascii_lit("\"sources\":["@, 11);
        reveal_strlit("],\"sourcesContent\":[");
        lemma_ascii_lit("],\"sourcesContent\":["@, 20);
        reveal_strlit("],\"names\":[");
        lemma_ascii_lit("],\"names\":["@, 11);
    }
    contents.push("\"sources\":[");
    contents.push_list(&sourcemap.sources);
    let ghost after_sources = contents.view();
    if has_sources_content {
        contents.push("],\"sourcesContent\":[");
        contents.push_list(&sourcemap.sources_content);
    } else {
        assert(contents.view() =~= after_sources + Seq::<char>::empty());
    }
    contents.push("],\"names\":[");
    contents.push_list(&sourcemap.names);
    assert(contents.view() =~= start + "\"sources\":["@ + json_list(str_views(sourcemap.sources@)) + (if has_sources_content {
        "],\"sourcesContent\":["@ + json_list(str_views(sourcemap.sources_content@))
    } else {
        Seq::empty()
    }) + "],\"names\":["@ + json_list(str_views(sourcemap.names@)));
}

/// Writes the `mappings`, `ignoreList` and `debugId` fields and the closing brace.
fn write_tail(contents: &mut PreAllocatedString, sourcemap: &SourceMap)
    requires
        old(contents).wf(),
    ensures
        final(contents).wf(),
        final(contents).view() == old(contents).view() + "],\"mappings\":\""@ + sourcemap.mappings@ + "\""@
            + match sourcemap.ignore_list {
            Some(l) => ",\"ignoreList\":["@ + number_list(l@) + "]"@,
            None => Seq::empty(),
        } + match sourcemap.debug_id {
            Some(d) => ",\"debugId\":\""@ + d@ + "\""@,
            None => Seq::empty(),
        } + "}"@,
        final(contents).byte_len() <= old(contents).byte_len() + 15 + utf8_len(sourcemap.mappings@) + (match sourcemap.ignore_list {
            Some(l) => 16 + 10 * l@.len() + minus_one(l@.len() as int),
            None => 0,
        }) + (match sourcemap.debug_id {
            Some(d) => 13 + utf8_len(d@),
            None => 0,
        }) + 1,
{
    let ghost start = contents.view();
    proof {
        reveal_strlit("],\"mappings\":\"");
        lemma_ascii_lit("],\"mappings\":\""@, 14);
        reveal_strlit("\"");
        lemma_ascii_lit("\""@, 1);
        reveal_strlit(",\"ignoreList\":[");
        lemma_ascii_lit(",\"ignoreList\":["@, 15);
        reveal_strlit("]");
        lemma_ascii_lit("]"@, 1);
        reveal_strlit(",\"debugId\":\"");
        lemma_ascii_lit(",\"debugId\":\""@, 12);
        reveal_strlit("}");
        lemma_ascii_lit("}"@, 1);
    }
    contents.push("],\"mappings\":\"");
    contents.push_str(sourcemap.mappings.as_str());
    contents.push("\"");
    let ghost after_mappings = contents.view();
    if let Some(ignore_list) = &sourcemap.ignore_list {
        proof {
            lemma_number_list_len(ignore_list@);
        }
        contents.push(",\"ignoreList\":[");
        contents.push_number_list(ignore_list);
        contents.push("]");
    } else {
        assert(contents.view() =~= after_mappings + Seq::<char>::empty());
    }
    let ghost after_ignore = contents.view();
    if let Some(debug_id) = &sourcemap.debug_id {
        contents.push(",\"debugId\":\"");
        contents.push(debug_id.as_str());
        contents.push("\"");
    } else {
        assert(contents.view() =~= after_ignore + Seq::<char>::empty());
    }
    contents.push("}");
}

/// The JSON text of `sourcemap`, built in a buffer of [`json_capacity`] bytes
/// that it never outgrows.
pub fn to_json(sourcemap: &SourceMap) -> (r: String)
    requires
        json_capacity(*sourcemap) + 42 <= isize::MAX,
    ensures
        r@ == json_chars(*sourcemap),
        utf8_len(r@) <= json_capacity(*sourcemap),
{
    let ghost sm = *sourcemap;
    proof {
        lemma_json_capacity_parts(sm);
    }
    let max_segments = capacity(sourcemap);
    let has_sources_content = !sourcemap.sources_content.is_empty() && !all_empty(&sourcemap.sources_content);
    assert(has_sources_content == any_sources_content(sm));
    let mut contents = PreAllocatedString::new(max_segments);
    write_head(&mut contents, sourcemap);
    write_lists(&mut contents, sourcemap, has_sources_content);
    write_tail(&mut contents, sourcemap);
    assert(contents.view() =~= json_chars(sm));
    contents.consume()
}


spec fn json_head(sm: SourceMap) -> Seq<char> {
    let file_part = match sm.file {
        Some(f) => "\"file\":"@ + json_quoted(f@) + ","@,
        None => Seq::empty(),
    };
    let root_part = match sm.source_root {
        Some(r) => "\"sourceRoot\":"@ + json_quoted(r@) + ","@,
        None => Seq::empty(),
    };
    "{\"version\":3,"@ + file_part + root_part + "\"sources\":["@ + json_list(str_views(sm.sources@))
}

spec fn json_tail(sm: SourceMap) -> Seq<char> {
    let ignore_part = match sm.ignore_list {
        Some(l) => ",\"ignoreList\":["@ + number_list(l@) + "]"@,
        None => Seq::empty(),
    };
    let debug_part = match sm.debug_id {
        Some(d) => ",\"debugId\":\""@ + d@ + "\""@,
        None => Seq::empty(),
    };
    "],\"names\":["@ + json_list(str_views(sm.names@)) + "],\"mappings\":\""@ + sm.mappings@ + "\""@
        + ignore_part + debug_part + "}"@
}

spec fn content_field(sm: SourceMap) -> Seq<char> {
    "],\"sourcesContent\":["@ + json_list(str_views(sm.sources_content@))
}

proof fn lemma_json_split(sm: SourceMap)
    ensures
        json_chars(sm) == json_head(sm) + (if any_sources_content(sm) {
            content_field(sm)
        } else {
            Seq::empty()
        }) + json_tail(sm),
{
    assert(json_chars(sm) =~= json_head(sm) + (if any_sources_content(sm) {
        content_field(sm)
    } else {
        Seq::empty()
    }) + json_tail(sm));
}

proof fn lemma_cut(h: Seq<char>, c: Seq<char>, t: Seq<char>)
    ensures
        (h + t).take(h.len() as int) == h,
        (h + t).skip(h.len() as int) == t,
        h + c + t == (h + t).take(h.len() as int) + c + (h + t).skip(h.len() as int),
        h + Seq::<char>::empty() + t == h + t,
{
    assert((h + t).take(h.len() as int) =~= h);
    assert((h + t).skip(h.len() as int) =~= t);
    assert(h + Seq::<char>::empty() + t =~= h + t);
}

/// `sourcesContent` is written exactly when some source has non-empty content.
/// Against the same source map with no contents at all: when every content is
/// empty the JSON text is the same; when one is not, the text holds the
/// `sourcesContent` field, with every content, inserted at one place (after the
/// sources and before the names), and is otherwise the same.
pub proof fn lemma_sources_content_written(sm: SourceMap, bare: SourceMap)
    requires
        bare.file == sm.file,
        bare.source_root == sm.source_root,
        bare.sources == sm.sources,
        bare.names == sm.names,
        bare.mappings == sm.mappings,
        bare.ignore_list == sm.ignore_list,
        bare.debug_id == sm.debug_id,
        bare.sources_content@.len() == 0,
    ensures
        (forall|i: int| 0 <= i < sm.sources_content@.len() ==> (#[trigger] sm.sources_content@[i])@.len() == 0)
            ==> json_chars(sm) == json_chars(bare),
        (exists|i: int| 0 <= i < sm.sources_content@.len() && (#[trigger] sm.sources_content@[i])@.len() > 0)
            ==> exists|cut: int|
            0 <= cut <= json_chars(bare).len() && json_chars(sm) == #[trigger] json_chars(bare).take(cut)
                + "],\"sourcesContent\":["@ + json_list(str_views(sm.sources_content@)) + json_chars(bare).skip(
                cut,
            ),
{
    assert(!any_sources_content(bare));
    lemma_json_split(sm);
    lemma_json_split(bare);
    assert(json_head(bare) == json_head(sm));
    assert(json_tail(bare) == json_tail(sm));
    let h = json_head(sm);
    let t = json_tail(sm);
    lemma_cut(h, content_field(sm), t);
    if exists|i: int| 0 <= i < sm.sources_content@.len() && (#[trigger] sm.sources_content@[i])@.len() > 0 {
        assert(any_sources_content(sm));
        let cut = h.len() as int;
        assert(json_chars(bare) == h + t);
        assert(json_chars(sm) == json_chars(bare).take(cut) + content_field(sm) + json_chars(bare).skip(cut));
    } else {
        assert(!any_sources_content(sm));
    }
}

} // verus!
