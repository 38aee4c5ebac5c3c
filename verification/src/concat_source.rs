//! Concatenation of sources into one source.
use crate::concat_stream::{
    concat_chunks, concat_ok, concat_sections, concat_stream, section_views, sections_run,
    stream_views,
};
use crate::mapping::GeneratedInfo;
use crate::raw_buffer_source::{buffer_debug, utf8_lossy, RawBufferSource};
use crate::raw_source::{info_fits, raw_debug, raw_stream, text_info, RawStringSource};
use crate::stream::{
    IndexSourceMap, MapOptions, Offset, Section, SectionEntry, SectionOutput, SectionsView,
    StreamOutput, StreamView,
};
use crate::to_json::SourceMap;
use vstd::prelude::*;
use vstd::string::StringExecFns;
use vstd::std_specs::cmp::PartialEqSpecImpl;
use vstd::utf8::{encode_utf8, valid_utf8};

verus! {

/// The texts one after the other.
pub open spec fn flatten(cs: Seq<Seq<char>>) -> Seq<char>
    decreases cs.len(),
{
    if cs.len() == 0 {
        Seq::empty()
    } else {
        flatten(cs.drop_last()) + cs.last()
    }
}

/// What a concatenation knows of a child: the text of a raw source, or the
/// bytes of a raw buffer source.
pub enum ChildView {
    Text(Seq<char>),
    Bytes(Seq<u8>),
}

/// The generated code of a child, as text.
pub open spec fn child_text(c: ChildView) -> Seq<char> {
    match c {
        ChildView::Text(t) => t,
        ChildView::Bytes(b) => utf8_lossy(b),
    }
}

/// The generated code of a child, as bytes.
pub open spec fn child_bytes(c: ChildView) -> Seq<u8> {
    match c {
        ChildView::Text(t) => encode_utf8(t),
        ChildView::Bytes(b) => b,
    }
}

/// The children's texts.
pub open spec fn texts(cs: Seq<ChildView>) -> Seq<Seq<char>> {
    cs.map_values(|c: ChildView| child_text(c))
}

/// The children's bytes, one after the other.
pub open spec fn all_bytes(cs: Seq<ChildView>) -> Seq<u8>
    decreases cs.len(),
{
    if cs.len() == 0 {
        Seq::empty()
    } else {
        all_bytes(cs.drop_last()) + child_bytes(cs.last())
    }
}

/// A pending run of raw sources, as children: none, the one raw source, or one
/// raw source with their texts merged.
pub open spec fn flush(p: Seq<Seq<char>>) -> Seq<ChildView> {
    if p.len() == 0 {
        Seq::empty()
    } else if p.len() == 1 {
        seq![ChildView::Text(p[0])]
    } else {
        seq![ChildView::Text(flatten(p))]
    }
}

/// Going through the children: those placed so far, and the pending run of raw
/// sources; any other child flushes the run and follows it.
pub open spec fn optimize_run(cs: Seq<ChildView>) -> (Seq<ChildView>, Seq<Seq<char>>)
    decreases cs.len(),
{
    if cs.len() == 0 {
        (Seq::empty(), Seq::empty())
    } else {
        let (done, pending) = optimize_run(cs.drop_last());
        match cs.last() {
            ChildView::Text(t) => (done, pending.push(t)),
            ChildView::Bytes(b) => (done + flush(pending) + seq![ChildView::Bytes(b)], Seq::empty()),
        }
    }
}

/// The children after optimization: each run of consecutive raw sources merged
/// into one raw source. One child or none stay as they are.
pub open spec fn optimize_spec(cs: Seq<ChildView>) -> Seq<ChildView> {
    if cs.len() <= 1 {
        cs
    } else {
        let (done, pending) = optimize_run(cs);
        done + flush(pending)
    }
}

/// No two raw sources follow each other.
pub open spec fn no_adjacent_text(cs: Seq<ChildView>) -> bool {
    forall|i: int| 0 <= i < cs.len() - 1 && #[trigger] cs[i] is Text ==> !(cs[i + 1] is Text)
}

/// The texts of raw sources.
pub open spec fn raw_views(v: Seq<RawStringSource>) -> Seq<Seq<char>> {
    v.map_values(|r: RawStringSource| r@)
}

/// A source that a concatenation can take: a raw source, a raw buffer source,
/// or a concatenation whose children are taken over.
#[derive(Debug)]
pub enum BoxSource {
    RawString(RawStringSource),
    RawBuffer(RawBufferSource),
    Concat(ConcatSource),
}

/// A child as the concatenation knows it.
pub open spec fn child_view(b: BoxSource) -> ChildView {
    match b {
        BoxSource::RawString(r) => ChildView::Text(r@),
        BoxSource::RawBuffer(r) => ChildView::Bytes(r@),
        BoxSource::Concat(_) => ChildView::Text(Seq::empty()),
    }
}

pub open spec fn child_views(v: Seq<BoxSource>) -> Seq<ChildView> {
    v.map_values(|b: BoxSource| child_view(b))
}

/// No child is a concatenation.
pub open spec fn flat(v: Seq<BoxSource>) -> bool {
    forall|i: int| 0 <= i < v.len() ==> !(#[trigger] v[i] is Concat)
}

impl RawStringSource {
    pub fn boxed(self) -> (r: BoxSource)
        ensures
            r == BoxSource::RawString(self),
    {
        BoxSource::RawString(self)
    }
}

impl RawBufferSource {
    pub fn boxed(self) -> (r: BoxSource)
        ensures
            r == BoxSource::RawBuffer(self),
    {
        BoxSource::RawBuffer(self)
    }
}

/// The children that a source adds to a concatenation.
pub open spec fn contribution(b: BoxSource) -> Seq<ChildView> {
    match b {
        BoxSource::Concat(c) => c.children_view(),
        _ => seq![child_view(b)],
    }
}

/// The children that the sources add, one after the other.
pub open spec fn contributions(bs: Seq<BoxSource>) -> Seq<ChildView>
    decreases bs.len(),
{
    if bs.len() == 0 {
        Seq::empty()
    } else {
        contributions(bs.drop_last()) + contribution(bs.last())
    }
}

/// Concatenate multiple sources to a single source.
#[derive(Debug)]
pub struct ConcatSource {
    children: Vec<BoxSource>,
    is_optimized: Option<Vec<BoxSource>>,
}

impl ConcatSource {
    /// No child is a concatenation, and once optimized, the children are kept
    /// in optimized form only.
    #[verifier::type_invariant]
    spec fn inv(self) -> bool {
        &&& flat(self.children@)
        &&& match self.is_optimized {
            Some(v) => self.children@.len() == 0 && flat(v@) && no_adjacent_text(child_views(v@)),
            None => true,
        }
    }

    /// The children, optimized or not.
    pub closed spec fn children_view(&self) -> Seq<ChildView> {
        match self.is_optimized {
            Some(v) => child_views(v@),
            None => child_views(self.children@),
        }
    }

    /// Whether the children are in their optimized form.
    pub closed spec fn is_optimized(&self) -> bool {
        self.is_optimized is Some
    }

    /// The generated code as text: the children's texts one after the other.
    pub open spec fn text(&self) -> Seq<char> {
        flatten(texts(self.children_view()))
    }

    /// The generated code as bytes: the children's bytes one after the other.
    pub open spec fn bytes(&self) -> Seq<u8> {
        all_bytes(self.children_view())
    }

    pub fn default() -> (r: Self)
        ensures
            r.children_view() == Seq::<ChildView>::empty(),
            !r.is_optimized(),
    {
        let r = ConcatSource { children: Vec::new(), is_optimized: None };
        assert(r.children_view() =~= Seq::<ChildView>::empty());
        r
    }

    pub fn boxed(self) -> (r: BoxSource)
        ensures
            r == BoxSource::Concat(self),
    {
        BoxSource::Concat(self)
    }

    /// Create a [ConcatSource] with [BoxSource]s.
    pub fn new(sources: Vec<BoxSource>) -> (r: Self)
        ensures
            r.children_view() == contributions(sources@),
            !r.is_optimized(),
    {
        let mut concat_source = ConcatSource::default();
        let ghost all = sources@;
        proof {
            assert(all.take(0) =~= Seq::<BoxSource>::empty());
        }
        for source in it: sources
            invariant
                all == it.seq(),
                concat_source.children_view() == contributions(all.take(it.index() as int)),
                !concat_source.is_optimized(),
        {
            proof {
                assert(all.take(it.index() + 1).drop_last() =~= all.take(it.index() as int));
            }
            concat_source.add(source);
        }
        proof {
            assert(all.take(all.len() as int) =~= all);
        }
        concat_source
    }

    /// Add a source to concat: a concatenation adds its children, any other
    /// source becomes the last child.
    pub fn add(&mut self, source: BoxSource)
        ensures
            final(self).children_view() == old(self).children_view() + contribution(source),
            final(self).text() == old(self).text() + added_text(source),
            final(self).bytes() == old(self).bytes() + added_bytes(source),
            !final(self).is_optimized(),
    {
        let ghost added = source;
        proof {
            use_type_invariant(&*self);
        }
        let mut children: Vec<BoxSource> = Vec::new();
        std::mem::swap(&mut children, &mut self.children);
        if self.is_optimized.is_some() {
            let mut optimized_children = None;
            std::mem::swap(&mut optimized_children, &mut self.is_optimized);
            match optimized_children {
                Some(v) => {
                    children = v;
                },
                None => {},
            }
        }
        let ghost before = child_views(children@);
        assert(before == old(self).children_view());
        match source {
            BoxSource::Concat(concat_source) => {
                proof {
                    use_type_invariant(&concat_source);
                }
                // Extend with existing children
                let other_children = match &concat_source.is_optimized {
                    Some(optimized_children) => optimized_children,
                    None => &concat_source.children,
                };
                let mut i: usize = 0;
                while i < other_children.len()
                    invariant
                        i <= other_children@.len(),
                        flat(other_children@),
                        flat(children@),
                        child_views(children@) == before + child_views(other_children@).take(i as int),
                    decreases other_children@.len() - i,
                {
                    let ghost prev = children@;
                    assert(!(other_children@[i as int] is Concat));
                    let child = clone_child(&other_children[i]);
                    children.push(child);
                    assert(child_views(children@) =~= child_views(prev).push(child_view(other_children@[i as int])));
                    assert(child_views(other_children@).take(i + 1) =~= child_views(other_children@).take(
                        i as int,
                    ).push(child_view(other_children@[i as int])));
                    i += 1;
                }
                assert(child_views(other_children@).take(i as int) =~= child_views(other_children@));
                self.children = children;
            },
            other => {
                let ghost prev = children@;
                // Any other source becomes the last child
                children.push(other);
                assert(child_views(children@) =~= child_views(prev).push(child_view(other)));
                self.children = children;
            },
        }
        proof {
            lemma_add_appends_code(old(self).children_view(), added);
            assert(self.children_view() =~= old(self).children_view() + contribution(added));
        }
    }
}

/// A copy of a child that is not a concatenation.
fn clone_child(b: &BoxSource) -> (r: BoxSource)
    requires
        !(b is Concat),
    ensures
        child_view(r) == child_view(*b),
        !(r is Concat),
{
    match b {
        BoxSource::RawString(r) => BoxSource::RawString(r.clone()),
        BoxSource::RawBuffer(r) => BoxSource::RawBuffer(r.clone()),
        BoxSource::Concat(_) => BoxSource::RawString(RawStringSource::from_str("")),
    }
}

/// Merges the pending raw sources into one and moves it to `new_children`.
fn merge_raw_sources(raw_sources: &mut Vec<RawStringSource>, new_children: &mut Vec<BoxSource>)
    requires
        flat(old(new_children)@),
    ensures
        final(raw_sources)@.len() == 0,
        flat(final(new_children)@),
        child_views(final(new_children)@) == child_views(old(new_children)@) + flush(raw_views(old(raw_sources)@)),
{
    let ghost before = new_children@;
    let n = raw_sources.len();
    if n == 0 {
        // Nothing to flush
        assert(child_views(new_children@) =~= child_views(before) + flush(raw_views(old(raw_sources)@)));
    } else if n == 1 {
        // Single source - move it directly
        let ghost only = raw_sources@[0];
        match raw_sources.pop() {
            Some(source) => {
                new_children.push(BoxSource::RawString(source));
            },
            None => {},
        }
        assert(raw_views(old(raw_sources)@) =~= seq![only@]);
        assert(child_views(new_children@) =~= child_views(before) + flush(raw_views(old(raw_sources)@)));
    } else {
        // Multiple sources - merge them
        let ghost views = raw_views(raw_sources@);
        let mut merged_content = String::new();
        let mut i: usize = 0;
        proof {
            assert(views.take(0) =~= Seq::<Seq<char>>::empty());
        }
        while i < raw_sources.len()
            invariant
                views == raw_views(raw_sources@),
                i <= raw_sources@.len(),
                merged_content@ == flatten(views.take(i as int)),
            decreases raw_sources@.len() - i,
        {
            merged_content.append(raw_sources[i].source());
            assert(views.take(i + 1).drop_last() =~= views.take(i as int));
            i += 1;
        }
        assert(views.take(i as int) =~= views);
        raw_sources.clear();
        let merged_source = RawStringSource::from_string(merged_content);
        new_children.push(BoxSource::RawString(merged_source));
        assert(child_views(new_children@) =~= child_views(before) + flush(views));
    }
}

proof fn lemma_optimize_run_shape(cs: Seq<ChildView>)
    ensures
        no_adjacent_text(optimize_run(cs).0),
        optimize_run(cs).0.len() == 0 || optimize_run(cs).0.last() is Bytes,
    decreases cs.len(),
{
    if cs.len() > 0 {
        lemma_optimize_run_shape(cs.drop_last());
        let (done, pending) = optimize_run(cs.drop_last());
        match cs.last() {
            ChildView::Text(t) => {},
            ChildView::Bytes(b) => {
                let d2 = done + flush(pending) + seq![ChildView::Bytes(b)];
                assert forall|i: int| 0 <= i < d2.len() - 1 && #[trigger] d2[i] is Text implies !(d2[i + 1] is Text) by {
                    if i < done.len() - 1 {
                        assert(d2[i] == done[i]);
                        assert(d2[i + 1] == done[i + 1]);
                    } else if i == done.len() - 1 {
                        assert(d2[i] == done[i]);
                    } else {
                        assert(flush(pending).len() <= 1);
                    }
                }
            },
        }
    }
}

/// Optimized children have no two raw sources in a row.
pub proof fn lemma_optimized_no_adjacent_text(cs: Seq<ChildView>)
    ensures
        no_adjacent_text(optimize_spec(cs)),
{
    if cs.len() > 1 {
        lemma_optimize_run_shape(cs);
        let (done, pending) = optimize_run(cs);
        let r = done + flush(pending);
        assert forall|i: int| 0 <= i < r.len() - 1 && #[trigger] r[i] is Text implies !(r[i + 1] is Text) by {
            if i < done.len() - 1 {
                assert(r[i] == done[i]);
                assert(r[i + 1] == done[i + 1]);
            } else {
                assert(r[i] == done[i]);
            }
        }
    }
}

proof fn lemma_optimize_run_identity(cs: Seq<ChildView>)
    requires
        no_adjacent_text(cs),
    ensures
        optimize_run(cs).1.len() <= 1,
        optimize_run(cs).0 + flush(optimize_run(cs).1) == cs,
        optimize_run(cs).1.len() == 1 <==> (cs.len() > 0 && cs.last() is Text),
    decreases cs.len(),
{
    if cs.len() > 0 {
        let d = cs.drop_last();
        assert(no_adjacent_text(d)) by {
            assert forall|i: int| 0 <= i < d.len() - 1 && #[trigger] d[i] is Text implies !(d[i + 1] is Text) by {
                assert(d[i] == cs[i]);
                assert(d[i + 1] == cs[i + 1]);
            }
        }
        lemma_optimize_run_identity(d);
        let (done, pending) = optimize_run(d);
        match cs.last() {
            ChildView::Text(t) => {
                if pending.len() == 1 {
                    assert(cs[cs.len() - 2] is Text);
                }
                assert(pending.len() == 0);
                assert(done + flush(pending) =~= done);
                assert(done + flush(pending.push(t)) =~= cs);
            },
            ChildView::Bytes(b) => {
                assert(done + flush(pending) + seq![ChildView::Bytes(b)] + flush(Seq::<Seq<char>>::empty()) =~= cs);
            },
        }
    } else {
        assert(optimize_run(cs).0 + flush(optimize_run(cs).1) =~= cs);
    }
}

/// Children with no two raw sources in a row are already optimized.
pub proof fn lemma_optimize_identity(cs: Seq<ChildView>)
    requires
        no_adjacent_text(cs),
    ensures
        optimize_spec(cs) == cs,
{
    if cs.len() > 1 {
        lemma_optimize_run_identity(cs);
    }
}

/// Optimizing twice is optimizing once.
pub proof fn lemma_optimize_idempotent(cs: Seq<ChildView>)
    ensures
        optimize_spec(optimize_spec(cs)) == optimize_spec(cs),
{
    lemma_optimized_no_adjacent_text(cs);
    lemma_optimize_identity(optimize_spec(cs));
}

/// The children in optimized form: each run of raw sources merged. The
/// children are moved out of `children`.
pub fn optimize(children: &mut Vec<BoxSource>) -> (r: Vec<BoxSource>)
    requires
        flat(old(children)@),
    ensures
        final(children)@.len() == 0,
        child_views(r@) == optimize_spec(child_views(old(children)@)),
        flat(r@),
        no_adjacent_text(child_views(r@)),
        optimize_spec(child_views(r@)) == child_views(r@),
{
    proof {
        lemma_optimized_no_adjacent_text(child_views(children@));
        lemma_optimize_idempotent(child_views(children@));
    }
    let mut original_children = Vec::new();
    std::mem::swap(&mut original_children, children);
    if original_children.len() <= 1 {
        return original_children;  // Nothing to optimize
    }
    let mut new_children: Vec<BoxSource> = Vec::new();
    let mut current_raw_sources: Vec<RawStringSource> = Vec::new();
    let ghost all = original_children@;
    let ghost views = child_views(all);
    proof {
        assert(views.take(0) =~= Seq::<ChildView>::empty());
    }
    for child in it: original_children
        invariant
            all == it.seq(),
            views == child_views(all),
            flat(all),
            flat(new_children@),
            child_views(new_children@) == optimize_run(views.take(it.index() as int)).0,
            raw_views(current_raw_sources@) == optimize_run(views.take(it.index() as int)).1,
    {
        let ghost k = it.index() as int;
        proof {
            assert(views.take(k + 1).drop_last() =~= views.take(k));
            assert(views.take(k + 1).last() == child_view(child));
        }
        match child {
            BoxSource::RawString(raw) => {
                let ghost prev = current_raw_sources@;
                current_raw_sources.push(raw);
                assert(raw_views(current_raw_sources@) =~= raw_views(prev).push(raw@));
            },
            other => {
                // Flush any pending raw sources before adding the other source
                merge_raw_sources(&mut current_raw_sources, &mut new_children);
                let ghost prev = new_children@;
                assert(!(other is Concat));
                new_children.push(other);
                assert(child_views(new_children@) =~= child_views(prev).push(child_view(other)));
                assert(raw_views(current_raw_sources@) =~= Seq::<Seq<char>>::empty());
            },
        }
    }
    assert(views.take(all.len() as int) =~= views);
    // Flush any remaining pending raw sources
    merge_raw_sources(&mut current_raw_sources, &mut new_children);
    new_children
}

impl ConcatSource {
    /// The children in optimized form, computed once and kept.
    pub fn optimized_children(&mut self) -> (r: &Vec<BoxSource>)
        ensures
            child_views(r@) == optimize_spec(old(self).children_view()),
            final(self).children_view() == child_views(r@),
            final(self).is_optimized(),
            flat(r@),
    {
        proof {
            use_type_invariant(&*self);
            if self.is_optimized is Some {
                lemma_optimize_identity(self.children_view());
            }
        }
        if self.is_optimized.is_none() {
            let mut children: Vec<BoxSource> = Vec::new();
            std::mem::swap(&mut children, &mut self.children);
            let optimized = optimize(&mut children);
            proof {
                lemma_optimized_no_adjacent_text(old(self).children_view());
            }
            self.is_optimized = Some(optimized);
        }
        proof {
            use_type_invariant(&*self);
        }
        match &self.is_optimized {
            Some(optimized) => optimized,
            None => &self.children,
        }
    }
}

proof fn lemma_flatten_concat(a: Seq<Seq<char>>, b: Seq<Seq<char>>)
    ensures
        flatten(a + b) == flatten(a) + flatten(b),
    decreases b.len(),
{
    if b.len() == 0 {
        assert(a + b =~= a);
        assert(flatten(a) + flatten(b) =~= flatten(a));
    } else {
        lemma_flatten_concat(a, b.drop_last());
        assert((a + b).drop_last() =~= a + b.drop_last());
        assert(flatten(a) + flatten(b.drop_last()) + b.last() =~= flatten(a) + (flatten(b.drop_last())
            + b.last()));
    }
}

proof fn lemma_flatten_single(x: Seq<char>)
    ensures
        flatten(seq![x]) == x,
{
    assert(seq![x].drop_last() =~= Seq::<Seq<char>>::empty());
    assert(flatten(Seq::<Seq<char>>::empty()) == Seq::<char>::empty());
    assert(seq![x].last() == x);
    assert(flatten(seq![x]) == flatten(seq![x].drop_last()) + x);
}

proof fn lemma_all_bytes_concat(a: Seq<ChildView>, b: Seq<ChildView>)
    ensures
        all_bytes(a + b) == all_bytes(a) + all_bytes(b),
    decreases b.len(),
{
    if b.len() == 0 {
        assert(a + b =~= a);
        assert(all_bytes(a) + all_bytes(b) =~= all_bytes(a));
    } else {
        lemma_all_bytes_concat(a, b.drop_last());
        assert((a + b).drop_last() =~= a + b.drop_last());
        assert(all_bytes(a) + all_bytes(b.drop_last()) + child_bytes(b.last()) =~= all_bytes(a) + (all_bytes(
            b.drop_last(),
        ) + child_bytes(b.last())));
    }
}

proof fn lemma_flush_text_and_bytes(p: Seq<Seq<char>>)
    ensures
        flatten(texts(flush(p))) == flatten(p),
        all_bytes(flush(p)) == encode_utf8(flatten(p)),
{
    if p.len() == 0 {
        assert(texts(flush(p)) =~= Seq::<Seq<char>>::empty());
        assert(encode_utf8(Seq::<char>::empty()) =~= Seq::<u8>::empty());
    } else {
        let x = if p.len() == 1 {
            p[0]
        } else {
            flatten(p)
        };
        if p.len() == 1 {
            assert(p =~= seq![p[0]]);
            lemma_flatten_single(p[0]);
        }
        assert(texts(flush(p)) =~= seq![x]);
        lemma_flatten_single(x);
        assert(flush(p).drop_last() =~= Seq::<ChildView>::empty());
        assert(all_bytes(Seq::<ChildView>::empty()) == Seq::<u8>::empty());
        assert(flush(p).last() == ChildView::Text(x));
        assert(all_bytes(flush(p)) == all_bytes(flush(p).drop_last()) + encode_utf8(x));
        assert(Seq::<u8>::empty() + encode_utf8(x) =~= encode_utf8(x));
    }
}

proof fn lemma_optimize_run_keeps(cs: Seq<ChildView>)
    ensures
        flatten(texts(optimize_run(cs).0)) + flatten(optimize_run(cs).1) == flatten(texts(cs)),
        all_bytes(optimize_run(cs).0) + encode_utf8(flatten(optimize_run(cs).1)) == all_bytes(cs),
    decreases cs.len(),
{
    if cs.len() == 0 {
        assert(all_bytes(cs) == Seq::<u8>::empty());
        assert(texts(Seq::<ChildView>::empty()) =~= Seq::<Seq<char>>::empty());
        assert(encode_utf8(Seq::<char>::empty()) =~= Seq::<u8>::empty());
        assert(Seq::<char>::empty() + Seq::<char>::empty() =~= Seq::<char>::empty());
        assert(Seq::<u8>::empty() + Seq::<u8>::empty() =~= Seq::<u8>::empty());
    } else {
        let d = cs.drop_last();
        lemma_optimize_run_keeps(d);
        let (done, pending) = optimize_run(d);
        assert(texts(cs).drop_last() =~= texts(d));
        match cs.last() {
            ChildView::Text(t) => {
                assert(all_bytes(cs) == all_bytes(d) + encode_utf8(t));
                assert(pending.push(t).drop_last() =~= pending);
                crate::to_json::lemma_encode_utf8_concat(flatten(pending), t);
                assert(flatten(texts(done)) + flatten(pending.push(t)) =~= flatten(texts(done)) + flatten(
                    pending,
                ) + t);
                assert(all_bytes(done) + encode_utf8(flatten(pending.push(t))) =~= all_bytes(done)
                    + encode_utf8(flatten(pending)) + encode_utf8(t));
            },
            ChildView::Bytes(b) => {
                let d2 = done + flush(pending) + seq![ChildView::Bytes(b)];
                lemma_flush_text_and_bytes(pending);
                assert(texts(d2) =~= texts(done) + texts(flush(pending)) + seq![utf8_lossy(b)]);
                lemma_flatten_concat(texts(done) + texts(flush(pending)), seq![utf8_lossy(b)]);
                lemma_flatten_concat(texts(done), texts(flush(pending)));
                lemma_flatten_single(utf8_lossy(b));
                lemma_all_bytes_concat(done + flush(pending), seq![ChildView::Bytes(b)]);
                lemma_all_bytes_concat(done, flush(pending));
                assert(seq![ChildView::Bytes(b)].drop_last() =~= Seq::<ChildView>::empty());
                assert(Seq::<u8>::empty() + b =~= b);
                assert(encode_utf8(flatten(Seq::<Seq<char>>::empty())) =~= Seq::<u8>::empty());
                assert(flatten(texts(d2)) + flatten(Seq::<Seq<char>>::empty()) =~= flatten(texts(d2)));
                assert(all_bytes(d2) + Seq::<u8>::empty() =~= all_bytes(d2));
                assert(all_bytes(cs) == all_bytes(d) + b);
                assert(all_bytes(Seq::<ChildView>::empty()) == Seq::<u8>::empty());
                assert(seq![ChildView::Bytes(b)].last() == ChildView::Bytes(b));
                assert(all_bytes(seq![ChildView::Bytes(b)]) == all_bytes(seq![ChildView::Bytes(b)].drop_last()) + b);
                assert(all_bytes(seq![ChildView::Bytes(b)]) == b);
                assert(all_bytes(d2) == all_bytes(done) + all_bytes(flush(pending)) + b);
                assert(all_bytes(done) + all_bytes(flush(pending)) + b =~= (all_bytes(done) + encode_utf8(
                    flatten(pending),
                )) + b);
            },
        }
    }
}

/// Optimizing the children keeps the generated code, as text and as bytes.
pub proof fn lemma_optimize_keeps_code(cs: Seq<ChildView>)
    ensures
        flatten(texts(optimize_spec(cs))) == flatten(texts(cs)),
        all_bytes(optimize_spec(cs)) == all_bytes(cs),
{
    if cs.len() > 1 {
        lemma_optimize_run_keeps(cs);
        let (done, pending) = optimize_run(cs);
        lemma_flush_text_and_bytes(pending);
        assert(texts(done + flush(pending)) =~= texts(done) + texts(flush(pending)));
        lemma_flatten_concat(texts(done), texts(flush(pending)));
        lemma_all_bytes_concat(done, flush(pending));
    }
}

/// The generated code of a source added to a concatenation.
pub open spec fn source_text(b: BoxSource) -> Seq<char> {
    flatten(texts(contribution(b)))
}

/// Adding a source appends its generated code to the concatenation's.
pub proof fn lemma_add_appends_text(before: Seq<ChildView>, b: BoxSource)
    ensures
        flatten(texts(before + contribution(b))) == flatten(texts(before)) + source_text(b),
{
    assert(texts(before + contribution(b)) =~= texts(before) + texts(contribution(b)));
    lemma_flatten_concat(texts(before), texts(contribution(b)));
}

/// The bytes of a source added to a concatenation.
pub open spec fn source_bytes(b: BoxSource) -> Seq<u8> {
    all_bytes(contribution(b))
}

/// Adding a source appends its bytes to the concatenation's, and its size to
/// the concatenation's size.
pub proof fn lemma_add_appends_bytes(before: Seq<ChildView>, b: BoxSource)
    ensures
        all_bytes(before + contribution(b)) == all_bytes(before) + source_bytes(b),
        all_bytes(before + contribution(b)).len() == all_bytes(before).len() + source_bytes(b).len(),
{
    lemma_all_bytes_concat(before, contribution(b));
}

/// The generated code that a source adds when it is added to a concatenation:
/// a concatenation's own code, whether or not it is optimized, or the code of a
/// raw source.
pub open spec fn added_text(b: BoxSource) -> Seq<char> {
    match b {
        BoxSource::Concat(c) => c.text(),
        BoxSource::RawString(r) => r@,
        BoxSource::RawBuffer(r) => utf8_lossy(r@),
    }
}

/// The bytes that a source adds when it is added to a concatenation.
pub open spec fn added_bytes(b: BoxSource) -> Seq<u8> {
    match b {
        BoxSource::Concat(c) => c.bytes(),
        BoxSource::RawString(r) => encode_utf8(r@),
        BoxSource::RawBuffer(r) => r@,
    }
}

/// Adding a source to children appends its generated code, as text and as
/// bytes: a concatenation adds all of its code, optimized or not.
pub proof fn lemma_add_appends_code(before: Seq<ChildView>, b: BoxSource)
    ensures
        flatten(texts(before + contribution(b))) == flatten(texts(before)) + added_text(b),
        all_bytes(before + contribution(b)) == all_bytes(before) + added_bytes(b),
{
    lemma_add_appends_text(before, b);
    lemma_add_appends_bytes(before, b);
    match b {
        BoxSource::Concat(c) => {},
        _ => {
            let v = child_view(b);
            assert(texts(seq![v]) =~= seq![child_text(v)]);
            lemma_flatten_single(child_text(v));
            assert(seq![v].drop_last() =~= Seq::<ChildView>::empty());
            assert(all_bytes(Seq::<ChildView>::empty()) == Seq::<u8>::empty());
            assert(seq![v].last() == v);
            assert(all_bytes(seq![v]) == all_bytes(seq![v].drop_last()) + child_bytes(v));
            assert(Seq::<u8>::empty() + child_bytes(v) =~= child_bytes(v));
        },
    }
}

/// Equal concatenations have the same generated code, as text and as bytes.
pub proof fn lemma_eq_same_code(a: ConcatSource, b: ConcatSource)
    requires
        vstd::std_specs::cmp::PartialEqSpec::eq_spec(&a, &b),
    ensures
        a.text() == b.text(),
        a.bytes() == b.bytes(),
{
    lemma_optimize_keeps_code(a.children_view());
    lemma_optimize_keeps_code(b.children_view());
}

/// The generated code of a concatenation built from sources is their generated
/// code, one after the other.
pub proof fn lemma_new_text(bs: Seq<BoxSource>)
    ensures
        flatten(texts(contributions(bs))) == flatten(bs.map_values(|b: BoxSource| source_text(b))),
    decreases bs.len(),
{
    if bs.len() > 0 {
        lemma_new_text(bs.drop_last());
        lemma_add_appends_text(contributions(bs.drop_last()), bs.last());
        assert(bs.map_values(|b: BoxSource| source_text(b)).drop_last() =~= bs.drop_last().map_values(
            |b: BoxSource| source_text(b),
        ));
    }
}

/// The debug text of a child, indented by `indent` spaces.
pub open spec fn child_debug(c: ChildView, indent: nat) -> Seq<char> {
    match c {
        ChildView::Text(t) => raw_debug(t, indent),
        ChildView::Bytes(b) => buffer_debug(b, indent),
    }
}

/// The debug lines of children, each indented by two spaces and ended by a comma.
pub open spec fn children_debug(cs: Seq<ChildView>) -> Seq<char>
    decreases cs.len(),
{
    if cs.len() == 0 {
        Seq::empty()
    } else {
        children_debug(cs.drop_last()) + child_debug(cs.last(), 2) + ",\n"@
    }
}

/// The debug text of a concatenation with children `cs`.
pub open spec fn concat_debug(cs: Seq<ChildView>) -> Seq<char> {
    "ConcatSource::new(vec![\n"@ + children_debug(cs) + "]).boxed()"@
}

/// Whether a child's generated code is valid UTF-8: always for a raw source,
/// and for a raw buffer source when its bytes are.
pub open spec fn child_valid(c: ChildView) -> bool {
    match c {
        ChildView::Text(_) => true,
        ChildView::Bytes(b) => valid_utf8(b),
    }
}

/// Whether the generated code of every child is valid UTF-8.
pub open spec fn all_valid(cs: Seq<ChildView>) -> bool {
    forall|i: int| 0 <= i < cs.len() ==> child_valid(#[trigger] cs[i])
}

proof fn lemma_optimize_run_valid(cs: Seq<ChildView>)
    requires
        all_valid(cs),
    ensures
        all_valid(optimize_run(cs).0),
    decreases cs.len(),
{
    if cs.len() > 0 {
        let d = cs.drop_last();
        assert(all_valid(d)) by {
            assert forall|i: int| 0 <= i < d.len() implies child_valid(#[trigger] d[i]) by {
                assert(d[i] == cs[i]);
            }
        }
        lemma_optimize_run_valid(d);
        let (done, pending) = optimize_run(d);
        if let ChildView::Bytes(b) = cs.last() {
            assert(child_valid(cs[cs.len() - 1]));
            let d2 = done + flush(pending) + seq![ChildView::Bytes(b)];
            assert forall|i: int| 0 <= i < d2.len() implies child_valid(#[trigger] d2[i]) by {
                if i < done.len() {
                    assert(d2[i] == done[i]);
                }
            }
        }
    }
}

/// Optimizing keeps the children's code valid UTF-8.
pub proof fn lemma_optimize_keeps_valid(cs: Seq<ChildView>)
    requires
        all_valid(cs),
    ensures
        all_valid(optimize_spec(cs)),
{
    if cs.len() > 1 {
        lemma_optimize_run_valid(cs);
        let (done, pending) = optimize_run(cs);
        let r = done + flush(pending);
        assert forall|i: int| 0 <= i < r.len() implies child_valid(#[trigger] r[i]) by {
            if i < done.len() {
                assert(r[i] == done[i]);
            }
        }
    }
}

/// The text of a child that is not a concatenation.
fn child_source(b: &BoxSource) -> (r: String)
    ensures
        !(b is Concat) ==> r@ == child_text(child_view(*b)),
        !(b is Concat) && child_valid(child_view(*b)) ==> encode_utf8(r@) == child_bytes(child_view(*b)),
{
    proof {
        if let BoxSource::RawBuffer(r) = b {
            if valid_utf8(r@) {
                vstd::utf8::decode_utf8_encode_utf8(r@);
            }
        }
    }
    match b {
        BoxSource::RawString(r) => r.source().to_owned(),
        BoxSource::RawBuffer(r) => r.source(),
        BoxSource::Concat(_) => String::new(),
    }
}

/// Appends the bytes of a child that is not a concatenation.
fn push_child_bytes(out: &mut Vec<u8>, b: &BoxSource)
    requires
        !(b is Concat),
    ensures
        final(out)@ == old(out)@ + child_bytes(child_view(*b)),
{
    let bytes: &[u8] = match b {
        BoxSource::RawString(r) => r.source().as_bytes(),
        BoxSource::RawBuffer(r) => r.buffer().as_slice(),
        BoxSource::Concat(_) => r"".as_bytes(),
    };
    let mut i: usize = 0;
    while i < bytes.len()
        invariant
            i <= bytes@.len(),
            out@ == old(out)@ + bytes@.take(i as int),
        decreases bytes@.len() - i,
    {
        out.push(bytes[i]);
        assert(bytes@.take(i + 1) =~= bytes@.take(i as int).push(bytes@[i as int]));
        i += 1;
    }
    assert(bytes@.take(i as int) =~= bytes@);
}

/// The size in bytes of a child that is not a concatenation.
fn child_size(b: &BoxSource) -> (r: usize)
    requires
        !(b is Concat),
    ensures
        r == child_bytes(child_view(*b)).len(),
{
    match b {
        BoxSource::RawString(r) => r.size(),
        BoxSource::RawBuffer(r) => r.size(),
        BoxSource::Concat(_) => 0,
    }
}

/// The debug text of a child that is not a concatenation, indented by `indent` spaces.
fn child_debug_string(b: &BoxSource, indent: usize) -> (r: String)
    requires
        !(b is Concat),
    ensures
        r@ == child_debug(child_view(*b), indent as nat),
{
    match b {
        BoxSource::RawString(r) => r.debug_string(indent),
        BoxSource::RawBuffer(r) => r.debug_string(indent),
        BoxSource::Concat(_) => String::new(),
    }
}

/// Whether two children that are not concatenations are the same.
fn same_child(a: &BoxSource, b: &BoxSource) -> (r: bool)
    requires
        !(a is Concat),
        !(b is Concat),
    ensures
        r == (child_view(*a) == child_view(*b)),
{
    match (a, b) {
        (BoxSource::RawString(x), BoxSource::RawString(y)) => x.same_text(y),
        (BoxSource::RawBuffer(x), BoxSource::RawBuffer(y)) => x.same_bytes(y),
        _ => false,
    }
}

fn clone_children(v: &Vec<BoxSource>) -> (r: Vec<BoxSource>)
    requires
        flat(v@),
    ensures
        child_views(r@) == child_views(v@),
        r@.len() == v@.len(),
        flat(r@),
{
    let mut r: Vec<BoxSource> = Vec::new();
    let mut i: usize = 0;
    while i < v.len()
        invariant
            flat(v@),
            flat(r@),
            i <= v@.len(),
            child_views(r@) == child_views(v@).take(i as int),
            r@.len() == i,
        decreases v@.len() - i,
    {
        let ghost prev = r@;
        assert(!(v@[i as int] is Concat));
        let c = clone_child(&v[i]);
        r.push(c);
        assert(child_views(r@) =~= child_views(prev).push(child_view(v@[i as int])));
        assert(child_views(v@).take(i + 1) =~= child_views(v@).take(i as int).push(child_view(v@[i as int])));
        i += 1;
    }
    assert(child_views(v@).take(i as int) =~= child_views(v@));
    r
}

impl ConcatSource {
    /// The generated code as text.
    pub fn source(&mut self) -> (r: String)
        ensures
            r@ == old(self).text(),
            all_valid(old(self).children_view()) ==> encode_utf8(r@) == old(self).bytes(),
            final(self).children_view() == optimize_spec(old(self).children_view()),
            final(self).is_optimized(),
    {
        proof {
            lemma_optimize_keeps_code(self.children_view());
            if all_valid(self.children_view()) {
                lemma_optimize_keeps_valid(self.children_view());
            }
        }
        let children = self.optimized_children();
        let ghost views = child_views(children@);
        let ghost valid = all_valid(views);
        if children.len() == 1 {
            proof {
                assert(texts(views) =~= seq![child_text(views[0])]);
                lemma_flatten_single(child_text(views[0]));
                assert(views.drop_last() =~= Seq::<ChildView>::empty());
                assert(all_bytes(Seq::<ChildView>::empty()) == Seq::<u8>::empty());
                assert(all_bytes(views) == all_bytes(views.drop_last()) + child_bytes(views.last()));
                assert(Seq::<u8>::empty() + child_bytes(views[0]) =~= child_bytes(views[0]));
                if valid {
                    assert(child_valid(views[0]));
                }
            }
            return child_source(&children[0]);
        }
        let mut string = String::new();
        let mut i: usize = 0;
        proof {
            assert(texts(views).take(0) =~= Seq::<Seq<char>>::empty());
        }
        while i < children.len()
            invariant
                views == child_views(children@),
                flat(children@),
                i <= children@.len(),
                string@ == flatten(texts(views).take(i as int)),
                valid == all_valid(views),
                valid ==> encode_utf8(string@) == all_bytes(views.take(i as int)),
            decreases children@.len() - i,
        {
            let ghost prev = string@;
            let piece = child_source(&children[i]);
            string.append(piece.as_str());
            assert(texts(views).take(i + 1).drop_last() =~= texts(views).take(i as int));
            proof {
                assert(views.take(i + 1).drop_last() =~= views.take(i as int));
                assert(views.take(i + 1).last() == views[i as int]);
                if valid {
                    assert(child_valid(views[i as int]));
                    crate::to_json::lemma_encode_utf8_concat(prev, piece@);
                }
            }
            i += 1;
        }
        assert(texts(views).take(i as int) =~= texts(views));
        assert(views.take(i as int) =~= views);
        string
    }

    /// The generated code, in pieces: the text of each optimized child.
    pub fn rope(&mut self) -> (r: Vec<String>)
        ensures
            crate::to_json::str_views(r@) == texts(optimize_spec(old(self).children_view())),
            final(self).children_view() == optimize_spec(old(self).children_view()),
    {
        let children = self.optimized_children();
        let ghost views = child_views(children@);
        let mut r: Vec<String> = Vec::new();
        let mut i: usize = 0;
        while i < children.len()
            invariant
                views == child_views(children@),
                flat(children@),
                i <= children@.len(),
                crate::to_json::str_views(r@) == texts(views).take(i as int),
            decreases children@.len() - i,
        {
            let ghost prev = r@;
            let piece = child_source(&children[i]);
            r.push(piece);
            assert(crate::to_json::str_views(r@) =~= crate::to_json::str_views(prev).push(piece@));
            assert(texts(views).take(i + 1) =~= texts(views).take(i as int).push(child_text(views[i as int])));
            i += 1;
        }
        assert(texts(views).take(i as int) =~= texts(views));
        r
    }

    /// Size of the generated code in bytes.
    pub fn size(&mut self) -> (r: usize)
        requires
            old(self).bytes().len() <= usize::MAX,
        ensures
            r == old(self).bytes().len(),
            final(self).children_view() == optimize_spec(old(self).children_view()),
    {
        proof {
            lemma_optimize_keeps_code(self.children_view());
        }
        let children = self.optimized_children();
        let ghost views = child_views(children@);
        let mut size: usize = 0;
        let mut i: usize = 0;
        while i < children.len()
            invariant
                views == child_views(children@),
                flat(children@),
                i <= children@.len(),
                all_bytes(views).len() <= usize::MAX,
                size == all_bytes(views.take(i as int)).len(),
            decreases children@.len() - i,
        {
            proof {
                assert(views.take(i + 1).drop_last() =~= views.take(i as int));
                lemma_all_bytes_concat(views.take(i + 1), views.skip(i + 1));
                assert(views.take(i + 1) + views.skip(i + 1) =~= views);
            }
            size += child_size(&children[i]);
            i += 1;
        }
        assert(views.take(i as int) =~= views);
        size
    }

    /// The generated code as bytes.
    pub fn buffer(&mut self) -> (r: Vec<u8>)
        ensures
            r@ == old(self).bytes(),
            final(self).children_view() == optimize_spec(old(self).children_view()),
    {
        proof {
            lemma_optimize_keeps_code(self.children_view());
        }
        let children = self.optimized_children();
        let ghost views = child_views(children@);
        let mut buffer: Vec<u8> = Vec::new();
        let mut i: usize = 0;
        while i < children.len()
            invariant
                views == child_views(children@),
                flat(children@),
                i <= children@.len(),
                buffer@ == all_bytes(views.take(i as int)),
            decreases children@.len() - i,
        {
            push_child_bytes(&mut buffer, &children[i]);
            assert(views.take(i + 1).drop_last() =~= views.take(i as int));
            i += 1;
        }
        assert(views.take(i as int) =~= views);
        buffer
    }

    /// A copy of the concatenation, optimized or not as it is.
    pub fn clone(&self) -> (r: Self)
        ensures
            r.children_view() == self.children_view(),
            r.is_optimized() == self.is_optimized(),
    {
        proof {
            use_type_invariant(self);
        }
        let children = clone_children(&self.children);
        let is_optimized = match &self.is_optimized {
            Some(children) => Some(clone_children(children)),
            None => None,
        };
        ConcatSource { children, is_optimized }
    }

    /// The debug text: the children, optimized if they have been, one per line.
    pub fn debug_string(&self) -> (r: String)
        ensures
            r@ == concat_debug(self.children_view()),
    {
        proof {
            use_type_invariant(self);
        }
        let children = match &self.is_optimized {
            Some(optimized_children) => optimized_children,
            None => &self.children,
        };
        let ghost views = child_views(children@);
        let mut r = String::new();
        r.append("ConcatSource::new(vec![\n");
        let mut i: usize = 0;
        proof {
            assert(views.take(0) =~= Seq::<ChildView>::empty());
        }
        while i < children.len()
            invariant
                views == child_views(children@),
                flat(children@),
                i <= children@.len(),
                r@ == "ConcatSource::new(vec![\n"@ + children_debug(views.take(i as int)),
            decreases children@.len() - i,
        {
            let line = child_debug_string(&children[i], 2);
            r.append(line.as_str());
            r.append(",\n");
            proof {
                assert(views.take(i + 1).drop_last() =~= views.take(i as int));
            }
            assert(r@ =~= "ConcatSource::new(vec![\n"@ + children_debug(views.take(i + 1)));
            i += 1;
        }
        assert(views.take(i as int) =~= views);
        r.append("]).boxed()");
        r
    }

    /// The optimized children, computed without keeping them.
    pub fn optimized_parts(&self) -> (r: Vec<BoxSource>)
        ensures
            child_views(r@) == optimize_spec(self.children_view()),
            flat(r@),
    {
        proof {
            use_type_invariant(self);
        }
        let mut copy = match &self.is_optimized {
            Some(optimized_children) => {
                proof {
                    lemma_optimize_identity(self.children_view());
                }
                clone_children(optimized_children)
            },
            None => clone_children(&self.children),
        };
        let r = optimize(&mut copy);
        proof {
            lemma_optimize_idempotent(self.children_view());
        }
        r
    }
}

impl PartialEq for ConcatSource {
    fn eq(&self, other: &Self) -> (r: bool) {
        let a = self.optimized_parts();
        let b = other.optimized_parts();
        let ghost va = child_views(a@);
        let ghost vb = child_views(b@);
        if a.len() != b.len() {
            assert(va.len() != vb.len());
            return false;
        }
        let mut i: usize = 0;
        while i < a.len()
            invariant
                va == child_views(a@),
                vb == child_views(b@),
                va == optimize_spec(self.children_view()),
                vb == optimize_spec(other.children_view()),
                flat(a@),
                flat(b@),
                a@.len() == b@.len(),
                i <= a@.len(),
                forall|j: int| 0 <= j < i ==> va[j] == vb[j],
            decreases a@.len() - i,
        {
            let same = same_child(&a[i], &b[i]);
            if !same {
                assert(va[i as int] != vb[i as int]);
                return false;
            }
            i += 1;
        }
        assert(va =~= vb);
        true
    }
}

impl PartialEqSpecImpl for ConcatSource {
    open spec fn obeys_eq_spec() -> bool {
        true
    }

    open spec fn eq_spec(&self, other: &Self) -> bool {
        optimize_spec(self.children_view()) == optimize_spec(other.children_view())
    }
}

/// The chunk streams of raw children under `opts`.
pub open spec fn raw_child_streams(cs: Seq<Seq<char>>, opts: MapOptions) -> Seq<StreamView> {
    Seq::new(cs.len(), |i: int| raw_stream(cs[i], opts))
}

/// The section streams of raw children: each one section at its start,
/// without a source map.
pub open spec fn raw_child_sections(cs: Seq<Seq<char>>) -> Seq<SectionsView> {
    Seq::new(
        cs.len(),
        |i: int|
            SectionsView {
                sections: seq![SectionEntry { offset: Offset { line: 0, column: 0 }, map: None }],
                info: text_info(cs[i]),
            },
    )
}

/// Whether every child's end position fits in `u32`.
pub open spec fn children_fit(cs: Seq<Seq<char>>) -> bool {
    forall|i: int| 0 <= i < cs.len() ==> info_fits(#[trigger] cs[i])
}

/// The stream of a concatenation: its children's streams one after the other.
pub struct ConcatSourceStream {
    children_streams: Vec<BoxSource>,
}

impl ConcatSourceStream {
    /// The children.
    pub closed spec fn view(&self) -> Seq<ChildView> {
        child_views(self.children_streams@)
    }

    pub closed spec fn wf(&self) -> bool {
        flat(self.children_streams@)
    }

    pub fn new(children: &Vec<BoxSource>) -> (r: Self)
        requires
            flat(children@),
        ensures
            r.view() == child_views(children@),
            r.wf(),
    {
        ConcatSourceStream { children_streams: clone_children(children) }
    }

    /// The chunk stream of the concatenation: see [`concat_stream`].
    pub fn chunks(&self, options: &MapOptions) -> (r: StreamOutput)
        requires
            self.wf(),
            children_fit(texts(self.view())),
            concat_ok(raw_child_streams(texts(self.view()), *options), *options),
        ensures
            r@ == concat_stream(raw_child_streams(texts(self.view()), *options), *options),
    {
        let ghost cs = texts(self.view());
        let mut streams: Vec<StreamOutput> = Vec::new();
        let mut i: usize = 0;
        while i < self.children_streams.len()
            invariant
                cs == texts(self.view()),
                flat(self.children_streams@),
                children_fit(cs),
                i <= cs.len(),
                stream_views(streams@) == raw_child_streams(cs, *options).take(i as int),
            decreases cs.len() - i,
        {
            assert(info_fits(cs[i as int]));
            let stream = child_chunks(&self.children_streams[i], options);
            let ghost prev = streams@;
            streams.push(stream);
            assert(stream_views(streams@) =~= stream_views(prev).push(stream@));
            assert(raw_child_streams(cs, *options).take(i + 1) =~= raw_child_streams(cs, *options).take(
                i as int,
            ).push(raw_stream(cs[i as int], *options)));
            i += 1;
        }
        assert(raw_child_streams(cs, *options).take(i as int) =~= raw_child_streams(cs, *options));
        concat_chunks(&streams, options)
    }

    /// The chunk stream of the concatenation, when every position of its code
    /// fits in `u32`.
    pub fn try_chunks(&self, options: &MapOptions) -> (r: Option<StreamOutput>)
        requires
            self.wf(),
        ensures
            r is Some <==> text_fits(flatten(texts(self.view()))),
            r matches Some(o) ==> o@ == concat_stream(raw_child_streams(texts(self.view()), *options), *options),
    {
        let text = children_text(&self.children_streams);
        if !fits_positions(text.as_str()) {
            return None;
        }
        proof {
            lemma_raw_children_ok(texts(self.view()), *options);
        }
        Some(self.chunks(options))
    }

    /// The section stream of the concatenation, when every position of its
    /// code fits in `u32`.
    pub fn try_sections(&self) -> (r: Option<SectionOutput>)
        requires
            self.wf(),
        ensures
            r is Some <==> text_fits(flatten(texts(self.view()))),
            r matches Some(o) ==> {
                &&& o.sections@ == sections_run(raw_child_sections(texts(self.view()))).out
                &&& o.info == sections_run(raw_child_sections(texts(self.view()))).current
            },
    {
        let text = children_text(&self.children_streams);
        if !fits_positions(text.as_str()) {
            return None;
        }
        proof {
            lemma_raw_sections_fit(texts(self.view()));
        }
        Some(self.sections())
    }

    /// Number of sections of the children.
    pub fn sections_size_hint(&self) -> (r: usize)
        ensures
            r == self.view().len(),
    {
        let mut sum: usize = 0;
        let mut i: usize = 0;
        while i < self.children_streams.len()
            invariant
                i <= self.children_streams@.len(),
                sum == i,
            decreases self.children_streams@.len() - i,
        {
            sum += 1;
            i += 1;
        }
        sum
    }

    /// The section stream of the concatenation: each child's sections moved to
    /// where the child starts.
    pub fn sections(&self) -> (r: SectionOutput)
        requires
            self.wf(),
            children_fit(texts(self.view())),
            sections_run(raw_child_sections(texts(self.view()))).ok,
        ensures
            r.sections@ == sections_run(raw_child_sections(texts(self.view()))).out,
            r.info == sections_run(raw_child_sections(texts(self.view()))).current,
    {
        let ghost cs = texts(self.view());
        let mut outputs: Vec<SectionOutput> = Vec::new();
        let mut i: usize = 0;
        while i < self.children_streams.len()
            invariant
                cs == texts(self.view()),
                flat(self.children_streams@),
                children_fit(cs),
                i <= cs.len(),
                section_views(outputs@) == raw_child_sections(cs).take(i as int),
            decreases cs.len() - i,
        {
            assert(info_fits(cs[i as int]));
            let out = child_sections(&self.children_streams[i]);
            let ghost prev = outputs@;
            outputs.push(out);
            assert(out@ == raw_child_sections(cs)[i as int]) by {
                assert(out@.sections =~= raw_child_sections(cs)[i as int].sections);
            }
            assert(section_views(outputs@) =~= section_views(prev).push(out@));
            assert(raw_child_sections(cs).take(i + 1) =~= raw_child_sections(cs).take(i as int).push(
                raw_child_sections(cs)[i as int],
            ));
            i += 1;
        }
        assert(raw_child_sections(cs).take(i as int) =~= raw_child_sections(cs));
        concat_sections(outputs)
    }
}

/// The text of children that are not concatenations, one after the other.
fn children_text(children: &Vec<BoxSource>) -> (r: String)
    requires
        flat(children@),
    ensures
        r@ == flatten(texts(child_views(children@))),
{
    let ghost views = child_views(children@);
    let mut string = String::new();
    let mut i: usize = 0;
    proof {
        assert(texts(views).take(0) =~= Seq::<Seq<char>>::empty());
    }
    while i < children.len()
        invariant
            views == child_views(children@),
            flat(children@),
            i <= children@.len(),
            string@ == flatten(texts(views).take(i as int)),
        decreases children@.len() - i,
    {
        let piece = child_source(&children[i]);
        string.append(piece.as_str());
        assert(texts(views).take(i + 1).drop_last() =~= texts(views).take(i as int));
        i += 1;
    }
    assert(texts(views).take(i as int) =~= texts(views));
    string
}

/// The chunk stream of a child that is not a concatenation.
fn child_chunks(b: &BoxSource, options: &MapOptions) -> (r: StreamOutput)
    requires
        !(b is Concat),
        info_fits(child_text(child_view(*b))),
    ensures
        r@ == raw_stream(child_text(child_view(*b)), *options),
{
    match b {
        BoxSource::RawString(r) => r.chunks(options),
        BoxSource::RawBuffer(r) => r.chunks(options),
        BoxSource::Concat(_) => StreamOutput { events: Vec::new(), info: GeneratedInfo { generated_line: 1, generated_column: 0 } },
    }
}

/// The section stream of a child that is not a concatenation.
fn child_sections(b: &BoxSource) -> (r: SectionOutput)
    requires
        !(b is Concat),
        info_fits(child_text(child_view(*b))),
    ensures
        r.sections@.len() == 1,
        r.sections@[0].offset == (Offset { line: 0, column: 0 }),
        r.sections@[0].map is None,
        r.info == text_info(child_text(child_view(*b))),
{
    match b {
        BoxSource::RawString(r) => r.sections(),
        BoxSource::RawBuffer(r) => r.sections(),
        BoxSource::Concat(_) => SectionOutput { sections: Vec::new(), info: GeneratedInfo { generated_line: 1, generated_column: 0 } },
    }
}

/// Whether the end position of every line of `t` fits in `u32`.
pub open spec fn text_fits(t: Seq<char>) -> bool {
    crate::raw_source::newline_count(t) + 1 <= u32::MAX && crate::utf16_len::utf16_units(t) <= u32::MAX
}

/// Whether the end position of every line of `s` fits in `u32`.
pub fn fits_positions(s: &str) -> (r: bool)
    ensures
        r == text_fits(s@),
{
    let mut lines: u32 = 0;
    let ghost t = s@;
    for c in it: s.chars()
        invariant
            t == s@,
            it.seq() == t,
            lines == crate::raw_source::newline_count(t.take(it.index() as int)),
            lines < u32::MAX,
    {
        let ghost k = it.index() as int;
        proof {
            assert(t.take(k + 1).drop_last() =~= t.take(k));
            crate::raw_source::lemma_newline_count_prefix(t, k + 1);
        }
        if c == '\n' {
            if lines == u32::MAX - 1 {
                return false;
            }
            lines += 1;
        }
    }
    proof {
        assert(t.take(t.len() as int) =~= t);
    }
    let units = crate::utf16_len::utf16_len(s);
    units <= 0xFFFF_FFFFusize
}

impl ConcatSource {
    /// The stream of the optimized children.
    pub fn to_stream(&mut self) -> (r: ConcatSourceStream)
        ensures
            r.view() == optimize_spec(old(self).children_view()),
            r.wf(),
            final(self).children_view() == optimize_spec(old(self).children_view()),
    {
        let children = self.optimized_children();
        ConcatSourceStream::new(children)
    }

    /// The source map of the concatenation: the mappings of its chunk stream
    /// with final positions. Its children are raw sources, whose streams with
    /// final positions have no chunk at all, and neither has the stream of the
    /// concatenation (see [`lemma_raw_final_stream_empty`]): no generated
    /// position maps to an original, so there is no source map. Neither is there
    /// one when a position of the code would not fit in `u32`.
    pub fn map(&mut self, options: &MapOptions) -> (r: Option<SourceMap>)
        ensures
            r is None,
            final(self).children_view() == optimize_spec(old(self).children_view()),
    {
        let text = self.source();
        if !fits_positions(text.as_str()) {
            return None;
        }
        let final_options = MapOptions { columns: options.columns, final_source: true };
        proof {
            lemma_optimize_keeps_code(old(self).children_view());
            lemma_optimize_idempotent(old(self).children_view());
            lemma_optimize_keeps_code(self.children_view());
            lemma_raw_final_children_ok(texts(optimize_spec(self.children_view())), final_options);
            lemma_raw_final_stream_empty(texts(optimize_spec(self.children_view())), final_options);
        }
        let stream = self.to_stream();
        let out = stream.chunks(&final_options);
        assert(out.events@.len() == 0);
        None
    }

    /// The index source map of the concatenation: the sections of the
    /// children that have a source map, moved to where each child starts, or
    /// none if no child has one.
    pub fn index_map(&mut self, options: &MapOptions) -> (r: Option<IndexSourceMap>)
        ensures
            r is None,
            final(self).children_view() == optimize_spec(old(self).children_view()),
    {
        let text = self.source();
        if !fits_positions(text.as_str()) {
            return None;
        }
        proof {
            lemma_optimize_keeps_code(old(self).children_view());
            lemma_optimize_idempotent(old(self).children_view());
            lemma_optimize_keeps_code(self.children_view());
            lemma_raw_sections_fit(texts(optimize_spec(self.children_view())));
        }
        let stream = self.to_stream();
        let out = stream.sections();
        let ghost entries = out.sections@;
        let mut sections: Vec<Section> = Vec::new();
        for entry in it: out.sections
            invariant
                entries == it.seq(),
                forall|k: int| 0 <= k < entries.len() ==> (#[trigger] entries[k]).map is None,
                sections@.len() == 0,
        {
            let SectionEntry { offset, map } = entry;
            assert(map is None);
            if let Some(map) = map {
                sections.push(Section { offset, map });
            }
        }
        if sections.len() == 0 {
            None
        } else {
            Some(IndexSourceMap::new(sections))
        }
    }
}

proof fn lemma_utf16_units_push(s: Seq<char>, c: char)
    ensures
        crate::utf16_len::utf16_units(s.push(c)) == crate::utf16_len::utf16_units(s)
            + crate::utf16_len::utf16_units_of_char(c),
{
    let one = seq![c];
    lemma_utf16_units_concat(s, one);
    assert(s + one =~= s.push(c));
    assert(one.drop_first() =~= Seq::<char>::empty());
    assert(one[0] == c);
    assert(crate::utf16_len::utf16_units(Seq::<char>::empty()) == 0);
    assert(crate::utf16_len::utf16_units(one) == crate::utf16_len::utf16_units_of_char(c)
        + crate::utf16_len::utf16_units(one.drop_first()));
}

proof fn lemma_last_line_units(t: Seq<char>)
    ensures
        crate::utf16_len::utf16_units(crate::raw_source::last_line(t)) <= crate::utf16_len::utf16_units(t),
    decreases t.len(),
{
    if t.len() > 0 {
        lemma_last_line_units(t.drop_last());
        lemma_utf16_units_push(t.drop_last(), t.last());
        assert(t.drop_last().push(t.last()) =~= t);
        if t.last() != '\n' {
            lemma_utf16_units_push(crate::raw_source::last_line(t.drop_last()), t.last());
        }
    }
}

proof fn lemma_raw_sections_state(ts: Seq<Seq<char>>)
    requires
        text_fits(flatten(ts)),
    ensures
        children_fit(ts),
        ({
            let st = sections_run(raw_child_sections(ts));
            &&& st.ok
            &&& st.current.generated_line == crate::raw_source::newline_count(flatten(ts)) + 1
            &&& st.current.generated_column <= crate::utf16_len::utf16_units(flatten(ts))
            &&& st.out.len() == ts.len()
            &&& forall|k: int| 0 <= k < st.out.len() ==> (#[trigger] st.out[k]).map is None
        }),
    decreases ts.len(),
{
    let v = raw_child_sections(ts);
    if ts.len() == 0 {
        assert(crate::raw_source::split_lines(Seq::<char>::empty()) == (
        Seq::<Seq<char>>::empty(),
        Seq::<char>::empty(),
        ));
    } else {
        let d = ts.drop_last();
        let c = ts.last();
        lemma_split_lines_concat(flatten(d), c);
        lemma_utf16_units_concat(flatten(d), c);
        lemma_raw_sections_state(d);
        lemma_last_line_units(c);
        assert(v.drop_last() =~= raw_child_sections(d));
        assert(children_fit(ts)) by {
            assert forall|i: int| 0 <= i < ts.len() implies info_fits(#[trigger] ts[i]) by {
                if i < d.len() {
                    assert(ts[i] == d[i]);
                }
            }
        }
        let st0 = sections_run(raw_child_sections(d));
        let e = SectionEntry { offset: Offset { line: 0, column: 0 }, map: None };
        assert(v.last().sections == seq![e]);
        assert(seq![e].drop_last() =~= Seq::<SectionEntry>::empty());
        assert(crate::concat_stream::child_sections_run(st0, Seq::<SectionEntry>::empty()) == st0);
        let st1 = crate::concat_stream::child_sections_run(st0, seq![e]);
        assert(st1.out =~= st0.out.push(crate::concat_stream::shifted_section(st0.current, e)));
        assert(v.last().info == text_info(c));
        let st = sections_run(v);
        assert forall|k: int| 0 <= k < st.out.len() implies (#[trigger] st.out[k]).map is None by {
            if k < st0.out.len() {
                assert(st.out[k] == st0.out[k]);
            }
        }
    }
}

proof fn lemma_raw_sections_fit(ts: Seq<Seq<char>>)
    requires
        text_fits(flatten(ts)),
    ensures
        children_fit(ts),
        sections_run(raw_child_sections(ts)).ok,
        forall|k: int|
            0 <= k < sections_run(raw_child_sections(ts)).out.len() ==> (#[trigger] sections_run(
                raw_child_sections(ts),
            ).out[k]).map is None,
{
    lemma_raw_sections_state(ts);
}

/// Raw sources with final positions have no chunks, and neither has their
/// concatenation: it maps no generated position to an original.
pub proof fn lemma_raw_final_stream_empty(cs: Seq<Seq<char>>, opts: MapOptions)
    requires
        opts.final_source,
        children_fit(cs),
    ensures
        concat_stream(raw_child_streams(cs, opts), opts).events.len() == 0,
    decreases cs.len(),
{
    lemma_raw_children_run_quiet(cs, opts);
}

proof fn lemma_raw_children_run_quiet(cs: Seq<Seq<char>>, opts: MapOptions)
    requires
        opts.final_source,
        children_fit(cs),
    ensures
        crate::concat_stream::children_run(raw_child_streams(cs, opts), opts).out.len() == 0,
        !crate::concat_stream::children_run(raw_child_streams(cs, opts), opts).need_close,
        cs.len() == 1 ==> raw_child_streams(cs, opts)[0].events.len() == 0,
    decreases cs.len(),
{
    let v = raw_child_streams(cs, opts);
    if cs.len() > 0 {
        let d = cs.drop_last();
        assert(children_fit(d)) by {
            assert forall|i: int| 0 <= i < d.len() implies info_fits(#[trigger] d[i]) by {
                assert(d[i] == cs[i]);
            }
        }
        lemma_raw_children_run_quiet(d, opts);
        assert(v.drop_last() =~= raw_child_streams(d, opts));
        assert(info_fits(cs[cs.len() - 1]));
        assert(v.last().events =~= Seq::<crate::stream::EventView>::empty());
    }
}

proof fn lemma_split_lines_concat(a: Seq<char>, b: Seq<char>)
    ensures
        crate::raw_source::newline_count(a + b) == crate::raw_source::newline_count(a)
            + crate::raw_source::newline_count(b),
        crate::raw_source::last_line(a + b) == if crate::raw_source::newline_count(b) > 0 {
            crate::raw_source::last_line(b)
        } else {
            crate::raw_source::last_line(a) + b
        },
    decreases b.len(),
{
    if b.len() == 0 {
        assert(a + b =~= a);
        assert(crate::raw_source::last_line(a) + b =~= crate::raw_source::last_line(a));
    } else {
        lemma_split_lines_concat(a, b.drop_last());
        assert((a + b).drop_last() =~= a + b.drop_last());
        assert((a + b).last() == b.last());
        if b.last() != '\n' && crate::raw_source::newline_count(b.drop_last()) == 0 {
            assert((crate::raw_source::last_line(a) + b.drop_last()).push(b.last()) =~= crate::raw_source::last_line(a)
                + b);
        }
    }
}

proof fn lemma_utf16_units_concat(a: Seq<char>, b: Seq<char>)
    ensures
        crate::utf16_len::utf16_units(a + b) == crate::utf16_len::utf16_units(a) + crate::utf16_len::utf16_units(
            b,
        ),
    decreases a.len(),
{
    if a.len() == 0 {
        assert(a + b =~= b);
    } else {
        lemma_utf16_units_concat(a.drop_first(), b);
        assert((a + b).drop_first() =~= a.drop_first() + b);
        assert((a + b)[0] == a[0]);
    }
}

proof fn lemma_raw_children_end(cs: Seq<Seq<char>>, opts: MapOptions)
    requires
        children_fit(cs),
        crate::concat_stream::children_run(raw_child_streams(cs, opts), opts).ok,
    ensures
        ({
            let st = crate::concat_stream::children_run(raw_child_streams(cs, opts), opts);
            &&& st.line_offset == crate::raw_source::newline_count(flatten(cs))
            &&& st.column_offset == crate::utf16_len::utf16_units(crate::raw_source::last_line(flatten(cs)))
        }),
    decreases cs.len(),
{
    let v = raw_child_streams(cs, opts);
    if cs.len() == 0 {
        assert(crate::raw_source::split_lines(Seq::<char>::empty()) == (
        Seq::<Seq<char>>::empty(),
        Seq::<char>::empty(),
        ));
    } else {
        let d = cs.drop_last();
        let c = cs.last();
        assert(children_fit(d)) by {
            assert forall|i: int| 0 <= i < d.len() implies crate::raw_source::info_fits(#[trigger] d[i]) by {
                assert(d[i] == cs[i]);
            }
        }
        assert(v.drop_last() =~= raw_child_streams(d, opts));
        let st = crate::concat_stream::children_run(raw_child_streams(d, opts), opts);
        let st1 = crate::concat_stream::child_start(st);
        crate::concat_stream::lemma_events_run_keeps_offsets(st1, v.last().events, opts);
        lemma_raw_children_end(d, opts);
        lemma_split_lines_concat(flatten(d), c);
        assert(crate::raw_source::info_fits(cs[cs.len() - 1]));
        if crate::raw_source::newline_count(c) == 0 {
            lemma_split_lines_concat(Seq::<char>::empty(), c);
            assert(Seq::<char>::empty() + c =~= c);
            assert(crate::raw_source::split_lines(Seq::<char>::empty()) == (
            Seq::<Seq<char>>::empty(),
            Seq::<char>::empty(),
            ));
            assert(Seq::<char>::empty() + c =~= c);
            lemma_utf16_units_concat(crate::raw_source::last_line(flatten(d)), c);
        }
    }
}

/// The stream of a concatenation of raw sources ends where the concatenated text
/// ends: as many lines as the texts together, and the columns of the last line.
pub proof fn lemma_raw_concat_ends_with_text(cs: Seq<Seq<char>>, opts: MapOptions)
    requires
        children_fit(cs),
        concat_ok(raw_child_streams(cs, opts), opts),
        crate::raw_source::info_fits(flatten(cs)),
    ensures
        concat_stream(raw_child_streams(cs, opts), opts).info == text_info(flatten(cs)),
{
    if cs.len() == 1 {
        assert(cs =~= seq![cs[0]]);
        lemma_flatten_single(cs[0]);
    } else {
        lemma_raw_children_end(cs, opts);
    }
}


/// The concatenation of raw sources whose text fits stays within `u32`
/// throughout, with or without final positions.
proof fn lemma_raw_children_ok(cs: Seq<Seq<char>>, opts: MapOptions)
    requires
        text_fits(flatten(cs)),
    ensures
        children_fit(cs),
        crate::concat_stream::children_run(raw_child_streams(cs, opts), opts).ok,
        concat_ok(raw_child_streams(cs, opts), opts),
    decreases cs.len(),
{
    let v = raw_child_streams(cs, opts);
    if cs.len() > 0 {
        let d = cs.drop_last();
        let c = cs.last();
        lemma_split_lines_concat(flatten(d), c);
        lemma_utf16_units_concat(flatten(d), c);
        lemma_raw_children_ok(d, opts);
        lemma_last_line_units(c);
        lemma_last_line_units(flatten(cs));
        lemma_last_line_units(flatten(d));
        assert(children_fit(cs)) by {
            assert forall|i: int| 0 <= i < cs.len() implies info_fits(#[trigger] cs[i]) by {
                if i < d.len() {
                    assert(d[i] == cs[i]);
                }
            }
        }
        if opts.final_source {
            lemma_raw_children_run_quiet(d, opts);
        } else {
            crate::concat_stream::lemma_children_run_chunk_texts(raw_child_streams(d, opts), opts);
        }
        lemma_raw_children_end(d, opts);
        assert(v.drop_last() =~= raw_child_streams(d, opts));
        let st = crate::concat_stream::children_run(raw_child_streams(d, opts), opts);
        let st1 = crate::concat_stream::child_start(st);
        if opts.final_source {
            assert(v.last().events =~= Seq::<crate::stream::EventView>::empty());
        } else {
            lemma_raw_line_events_ok(st1, c, opts, crate::raw_source::raw_line_events(c).len() as int);
            assert(crate::raw_source::raw_line_events(c).take(
                crate::raw_source::raw_line_events(c).len() as int,
            ) =~= crate::raw_source::raw_line_events(c));
        }
        crate::concat_stream::lemma_events_run_keeps_offsets(st1, v.last().events, opts);
        if crate::raw_source::newline_count(c) == 0 {
            lemma_split_lines_concat(Seq::<char>::empty(), c);
            assert(Seq::<char>::empty() + c =~= c);
            assert(crate::raw_source::split_lines(Seq::<char>::empty()) == (
            Seq::<Seq<char>>::empty(),
            Seq::<char>::empty(),
            ));
            lemma_utf16_units_concat(crate::raw_source::last_line(flatten(d)), c);
        }
    }
}

/// The line chunks of a raw source stay within `u32` when its lines do.
proof fn lemma_raw_line_events_ok(
    st: crate::concat_stream::ConcatState,
    c: Seq<char>,
    opts: MapOptions,
    k: int,
)
    requires
        !opts.final_source,
        st.ok,
        !st.need_close,
        st.line_offset + crate::raw_source::newline_count(c) + 1 <= u32::MAX,
        0 <= k <= crate::raw_source::raw_line_events(c).len(),
    ensures
        crate::concat_stream::events_run(st, crate::raw_source::raw_line_events(c).take(k), opts).ok,
        !crate::concat_stream::events_run(st, crate::raw_source::raw_line_events(c).take(k), opts).need_close,
    decreases k,
{
    let evs = crate::raw_source::raw_line_events(c);
    if k > 0 {
        lemma_raw_line_events_ok(st, c, opts, k - 1);
        assert(evs.take(k).drop_last() =~= evs.take(k - 1));
        crate::concat_stream::lemma_events_run_keeps_offsets(st, evs.take(k - 1), opts);
        assert(crate::raw_source::split_lines(c).0.len() == crate::raw_source::newline_count(c));
        assert(evs.take(k).last() == evs[k - 1]);
    } else {
        assert(evs.take(0) =~= Seq::<crate::stream::EventView>::empty());
    }
}

/// With final positions, the concatenation of raw sources whose text fits
/// stays within `u32` throughout.
proof fn lemma_raw_final_children_ok(cs: Seq<Seq<char>>, opts: MapOptions)
    requires
        opts.final_source,
        text_fits(flatten(cs)),
    ensures
        children_fit(cs),
        crate::concat_stream::children_run(raw_child_streams(cs, opts), opts).ok,
        concat_ok(raw_child_streams(cs, opts), opts),
{
    lemma_raw_children_ok(cs, opts);
}

} // verus!
