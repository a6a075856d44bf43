//! The tag scanner and the in-memory tag index.
//!
//! Entry text may carry inline `{tag}` markers.  The scanner walks each
//! line left to right keeping a candidate buffer: `{` opens a candidate
//! (a second `{` abandons the rest of the line), `}` closes one, and the
//! closed candidate, braces included, is lower-cased and collected.  The
//! index is the set of all distinct tags seen so far.

use vstd::prelude::*;
use crate::text::{lines_of, string_to_chars, split_lines, chars_to_string};

verus! {

/// What `str::to_lowercase` returns for the given characters; the result
/// depends on the characters alone.
pub uninterp spec fn lower_of(s: Seq<char>) -> Seq<char>;

/// Relies on `str::to_lowercase`: returns the lower-case equivalent of
/// the string, a function of the input characters alone.
#[verifier::external_body]
fn lowercase(s: &str) -> (r: String)
    ensures
        r@ == lower_of(s@),
{
    s.to_lowercase()
}

/// The tags that scanning the rest of a line yields, with `buf` the
/// candidate collected so far (empty when no candidate is open).
pub open spec fn scan_line(cs: Seq<char>, buf: Seq<char>) -> Set<Seq<char>>
    decreases cs.len(),
{
    if cs.len() == 0 {
        Set::empty()
    } else if cs[0] == '{' {
        if buf.len() == 0 {
            scan_line(cs.drop_first(), seq!['{'])
        } else {
            Set::empty()
        }
    } else if cs[0] == '}' {
        if buf.len() > 0 {
            scan_line(cs.drop_first(), Seq::empty()).insert(lower_of(buf.push('}')))
        } else {
            scan_line(cs.drop_first(), buf)
        }
    } else {
        if buf.len() > 0 {
            scan_line(cs.drop_first(), buf.push(cs[0]))
        } else {
            scan_line(cs.drop_first(), buf)
        }
    }
}

/// The tags of one line.
pub open spec fn line_tags(cs: Seq<char>) -> Set<Seq<char>> {
    scan_line(cs, Seq::empty())
}

/// The tags of a sequence of lines: the union of each line's tags.
pub open spec fn tags_of_lines(ls: Seq<Seq<char>>) -> Set<Seq<char>>
    decreases ls.len(),
{
    if ls.len() == 0 {
        Set::empty()
    } else {
        tags_of_lines(ls.drop_last()).union(line_tags(ls.last()))
    }
}

/// The set of tags of a whole text, scanned line by line.
pub open spec fn tags_of(text: Seq<char>) -> Set<Seq<char>> {
    tags_of_lines(lines_of(text))
}

/// A finite set of tags, held as a duplicate-free list of strings.
pub struct TagSet {
    items: Vec<String>,
}

impl View for TagSet {
    type V = Set<Seq<char>>;

    closed spec fn view(&self) -> Set<Seq<char>> {
        Set::new(
            |t: Seq<char>|
                exists|i: int| 0 <= i < self.items@.len() && self.items@[i]@ == t,
        )
    }
}

impl TagSet {
    /// No two held strings are equal.
    pub closed spec fn wf(&self) -> bool {
        forall|i: int, j: int|
            0 <= i < j < self.items@.len() ==> self.items@[i]@ != self.items@[j]@
    }

    pub fn new() -> (r: TagSet)
        ensures
            r@ == Set::<Seq<char>>::empty(),
            r.wf(),
    {
        let r = TagSet { items: Vec::new() };
        proof {
            assert(r@ =~= Set::<Seq<char>>::empty());
        }
        r
    }

    /// Whether `t` is in the set.
    pub fn contains(&self, t: &String) -> (r: bool)
        ensures
            r == self@.contains(t@),
    {
        let mut i: usize = 0;
        while i < self.items.len()
            invariant
                i <= self.items@.len(),
                forall|j: int| 0 <= j < i ==> self.items@[j]@ != t@,
            decreases self.items@.len() - i,
        {
            if self.items[i].eq(t) {
                proof {
                    assert(self.items@[i as int]@ == t@);
                    assert(self@.contains(t@));
                }
                return true;
            }
            i = i + 1;
        }
        proof {
            assert(!self@.contains(t@));
        }
        false
    }

    /// Adds `t`; the set gains `t` and nothing else.
    pub fn insert(&mut self, t: String)
        requires
            old(self).wf(),
        ensures
            final (self).wf(),
            final (self)@ == old(self)@.insert(t@),
    {
        if !self.contains(&t) {
            let ghost old_items = self.items@;
            self.items.push(t);
            proof {
                assert forall|i: int, j: int|
                    0 <= i < j < self.items@.len() implies self.items@[i]@
                    != self.items@[j]@ by {
                    if j < old_items.len() {
                        assert(self.items@[i] == old_items[i]);
                        assert(self.items@[j] == old_items[j]);
                    } else {
                        assert(self.items@[j]@ == t@);
                        assert(self.items@[i] == old_items[i]);
                    }
                }
                assert forall|x: Seq<char>|
                    self@.contains(x) <==> old(self)@.insert(t@).contains(x) by {
                    if self@.contains(x) {
                        let i = choose|i: int|
                            0 <= i < self.items@.len() && self.items@[i]@ == x;
                        if i < old_items.len() {
                            assert(old_items[i]@ == x);
                        }
                    }
                    if old(self)@.contains(x) {
                        let i = choose|i: int|
                            0 <= i < old_items.len() && old_items[i]@ == x;
                        assert(self.items@[i]@ == x);
                    }
                    if x == t@ {
                        assert(self.items@[old_items.len() as int]@ == x);
                    }
                }
                assert(self@ =~= old(self)@.insert(t@));
            }
        } else {
            proof {
                assert(self@ =~= old(self)@.insert(t@));
            }
        }
    }

    /// Adds every tag of `other`.
    pub fn absorb(&mut self, other: &TagSet)
        requires
            old(self).wf(),
        ensures
            final (self).wf(),
            final (self)@ == old(self)@.union(other@),
    {
        let ghost base = old(self)@;
        let mut i: usize = 0;
        while i < other.items.len()
            invariant
                i <= other.items@.len(),
                self.wf(),
                self@ == base.union(
                    Set::new(
                        |t: Seq<char>|
                            exists|j: int| 0 <= j < i && other.items@[j]@ == t,
                    ),
                ),
            decreases other.items@.len() - i,
        {
            let ghost prev = self@;
            let s = other.items[i].clone();
            self.insert(s);
            proof {
                let si = Set::new(
                    |t: Seq<char>| exists|j: int| 0 <= j < i && other.items@[j]@ == t,
                );
                let si1 = Set::new(
                    |t: Seq<char>| exists|j: int| 0 <= j < i + 1 && other.items@[j]@ == t,
                );
                assert forall|x: Seq<char>| si1.contains(x) implies base.union(si).insert(
                    other.items@[i as int]@,
                ).contains(x) by {
                    let j = choose|j: int| 0 <= j < i + 1 && other.items@[j]@ == x;
                    if j < i {
                        assert(si.contains(x));
                    }
                }
                assert(self@ =~= base.union(si1));
            }
            i = i + 1;
        }
        proof {
            let sall = Set::new(
                |t: Seq<char>|
                    exists|j: int| 0 <= j < other.items@.len() && other.items@[j]@ == t,
            );
            assert(sall =~= other@);
            assert(self@ =~= base.union(other@));
        }
    }

    /// The held strings: one for each tag, in no significant order.
    pub fn items(&self) -> (r: &Vec<String>)
        ensures
            forall|i: int| 0 <= i < r@.len() ==> self@.contains(#[trigger] r@[i]@),
            forall|t: Seq<char>|
                self@.contains(t) ==> exists|i: int| 0 <= i < r@.len() && r@[i]@ == t,
            self.wf() ==> forall|i: int, j: int|
                0 <= i < j < r@.len() ==> r@[i]@ != r@[j]@,
    {
        proof {
            assert forall|i: int| 0 <= i < self.items@.len() implies self@.contains(
                self.items@[i]@,
            ) by {
                assert(self.items@[i]@ == self.items@[i]@);
            }
        }
        &self.items
    }
}

/// Appending one more line to a scanned prefix.
proof fn lemma_tags_of_lines_push(p: Seq<Seq<char>>, l: Seq<char>)
    ensures
        tags_of_lines(p.push(l)) == tags_of_lines(p).union(line_tags(l)),
{
    assert(p.push(l).drop_last() =~= p);
    assert(p.push(l).last() == l);
}

/// The distinct tags in `text`, scanned as `tags_of` describes:
/// line by line, `{` opening a candidate (a second `{` abandons the rest
/// of the line), `}` closing it, the closed candidate lower-cased.
pub fn find_tags(text: &str) -> (r: TagSet)
    ensures
        r.wf(),
        r@ == tags_of(text@),
{
    let cs = string_to_chars(text);
    let lines = split_lines(&cs);
    let ghost ldv = lines.deep_view();
    let mut ts = TagSet::new();
    let mut k: usize = 0;
    proof {
        assert(ldv.subrange(0, 0) =~= Seq::<Seq<char>>::empty());
        assert(ts@ =~= tags_of_lines(ldv.subrange(0, 0)));
    }
    while k < lines.len()
        invariant
            k <= lines@.len(),
            ldv == lines.deep_view(),
            ts.wf(),
            ts@ == tags_of_lines(ldv.subrange(0, k as int)),
        decreases lines@.len() - k,
    {
        let line = &lines[k];
        proof {
            assert(ldv[k as int] =~= line@);
        }
        let ghost lv = line@;
        let ghost pre = ts@;
        let mut buf: Vec<char> = Vec::new();
        let mut j: usize = 0;
        let mut aborted = false;
        proof {
            assert(lv.subrange(0, lv.len() as int) =~= lv);
            assert(pre.union(line_tags(lv)) =~= pre.union(
                scan_line(lv.subrange(0, lv.len() as int), buf@),
            ));
        }
        while j < line.len() && !aborted
            invariant
                j <= lv.len(),
                lv == line@,
                ts.wf(),
                !aborted ==> pre.union(line_tags(lv)) == ts@.union(
                    scan_line(lv.subrange(j as int, lv.len() as int), buf@),
                ),
                aborted ==> ts@ == pre.union(line_tags(lv)),
            decreases lv.len() - j,
        {
            let ghost rest = lv.subrange(j as int, lv.len() as int);
            let ghost rest1 = lv.subrange(j + 1, lv.len() as int);
            proof {
                assert(rest[0] == lv[j as int]);
                assert(rest.drop_first() =~= rest1);
            }
            let c = line[j];
            if c == '{' {
                if buf.len() == 0 {
                    buf.push('{');
                    proof {
                        assert(buf@ =~= seq!['{']);
                    }
                } else {
                    aborted = true;
                    proof {
                        assert(scan_line(rest, buf@) =~= Set::<Seq<char>>::empty());
                        assert(ts@.union(Set::<Seq<char>>::empty()) =~= ts@);
                    }
                }
            } else if c == '}' {
                if buf.len() > 0 {
                    let ghost buf0 = buf@;
                    buf.push('}');
                    let raw = chars_to_string(&buf);
                    let low = lowercase(raw.as_str());
                    let ghost prev = ts@;
                    ts.insert(low);
                    buf = Vec::new();
                    proof {
                        assert(low@ == lower_of(buf0.push('}')));
                        assert(scan_line(rest, buf0) == scan_line(rest1, Seq::empty()).insert(
                            lower_of(buf0.push('}')),
                        ));
                        assert(prev.union(
                            scan_line(rest1, Seq::empty()).insert(lower_of(buf0.push('}'))),
                        ) =~= prev.insert(lower_of(buf0.push('}'))).union(
                            scan_line(rest1, Seq::empty()),
                        ));
                    }
                }
            } else {
                if buf.len() > 0 {
                    buf.push(c);
                }
            }
            j = j + 1;
        }
        proof {
            if !aborted {
                assert(lv.subrange(j as int, lv.len() as int).len() == 0);
                assert(scan_line(lv.subrange(j as int, lv.len() as int), buf@)
                    =~= Set::<Seq<char>>::empty());
                assert(ts@.union(Set::<Seq<char>>::empty()) =~= ts@);
            }
            lemma_tags_of_lines_push(ldv.subrange(0, k as int), ldv[k as int]);
            assert(ldv.subrange(0, k as int).push(ldv[k as int]) =~= ldv.subrange(0, k + 1));
        }
        k = k + 1;
    }
    proof {
        assert(ldv.subrange(0, ldv.len() as int) =~= ldv);
    }
    ts
}

/// Adds every tag of `text` to the set.
pub fn merge(ts: &mut TagSet, text: &str)
    requires
        old(ts).wf(),
    ensures
        final (ts).wf(),
        final (ts)@ == old(ts)@.union(tags_of(text@)),
{
    let found = find_tags(text);
    ts.absorb(&found);
}

/// The tags of a sequence of partitions: the union of each partition
/// content's tags (the key plays no part).
pub open spec fn index_of(parts: Seq<(Seq<char>, Seq<char>)>) -> Set<Seq<char>>
    decreases parts.len(),
{
    if parts.len() == 0 {
        Set::empty()
    } else {
        index_of(parts.drop_last()).union(tags_of(parts.last().1))
    }
}

/// Builds the tag index from the partitions read back from the store:
/// the union of the tags of every partition's content.
pub fn load_tags(parts: &Vec<(String, String)>) -> (r: TagSet)
    ensures
        r.wf(),
        r@ == index_of(parts.deep_view()),
{
    let ghost dv = parts.deep_view();
    let mut ts = TagSet::new();
    let mut i: usize = 0;
    proof {
        assert(dv.subrange(0, 0) =~= Seq::<(Seq<char>, Seq<char>)>::empty());
        assert(ts@ =~= index_of(dv.subrange(0, 0)));
    }
    while i < parts.len()
        invariant
            i <= parts@.len(),
            dv == parts.deep_view(),
            ts.wf(),
            ts@ == index_of(dv.subrange(0, i as int)),
        decreases parts@.len() - i,
    {
        merge(&mut ts, parts[i].1.as_str());
        proof {
            let pre = dv.subrange(0, i as int);
            let pre1 = dv.subrange(0, i + 1);
            assert(pre1.drop_last() =~= pre);
            assert(pre1.last() == dv[i as int]);
            assert(dv[i as int].1 =~= parts@[i as int].1@);
        }
        i = i + 1;
    }
    proof {
        assert(dv.subrange(0, dv.len() as int) =~= dv);
    }
    ts
}

/// A sequence of characters with neither brace in it.
pub open spec fn brace_free(s: Seq<char>) -> bool {
    forall|i: int| 0 <= i < s.len() ==> s[i] != '{' && s[i] != '}'
}

/// Plain text before any candidate opens contributes nothing.
pub proof fn lemma_scan_plain_prefix(p: Seq<char>, rest: Seq<char>)
    requires
        brace_free(p),
    ensures
        scan_line(p + rest, Seq::empty()) == scan_line(rest, Seq::empty()),
    decreases p.len(),
{
    if p.len() == 0 {
        assert(p + rest =~= rest);
    } else {
        let s = p + rest;
        assert(s[0] == p[0]);
        assert(s.drop_first() =~= p.drop_first() + rest);
        assert forall|i: int| 0 <= i < p.drop_first().len() implies p.drop_first()[i] != '{'
            && p.drop_first()[i] != '}' by {
            assert(p.drop_first()[i] == p[i + 1]);
        }
        lemma_scan_plain_prefix(p.drop_first(), rest);
    }
}

/// Filling an open candidate with brace-free text up to its closing
/// brace yields exactly that candidate, lower-cased.
proof fn lemma_scan_body(body: Seq<char>, rest: Seq<char>, buf: Seq<char>)
    requires
        brace_free(body),
        buf.len() > 0,
    ensures
        scan_line(body + seq!['}'] + rest, buf) == scan_line(rest, Seq::empty()).insert(
            lower_of((buf + body).push('}')),
        ),
    decreases body.len(),
{
    let s = body + seq!['}'] + rest;
    if body.len() == 0 {
        assert(s =~= seq!['}'] + rest);
        assert(s[0] == '}');
        assert(s.drop_first() =~= rest);
        assert(buf + body =~= buf);
    } else {
        assert(s[0] == body[0]);
        assert(s.drop_first() =~= body.drop_first() + seq!['}'] + rest);
        assert forall|i: int| 0 <= i < body.drop_first().len() implies body.drop_first()[i] != '{'
            && body.drop_first()[i] != '}' by {
            assert(body.drop_first()[i] == body[i + 1]);
        }
        lemma_scan_body(body.drop_first(), rest, buf.push(body[0]));
        assert(buf.push(body[0]) + body.drop_first() =~= buf + body);
    }
}

/// One well-formed marker in a line yields exactly its lower-cased form,
/// besides whatever the rest of the line yields.
pub proof fn lemma_marker_tags(pre: Seq<char>, body: Seq<char>, rest: Seq<char>)
    requires
        brace_free(pre),
        brace_free(body),
    ensures
        line_tags(pre + seq!['{'] + body + seq!['}'] + rest) == line_tags(rest).insert(
            lower_of(seq!['{'] + body + seq!['}']),
        ),
{
    let t = seq!['{'] + body + seq!['}'] + rest;
    assert(pre + seq!['{'] + body + seq!['}'] + rest =~= pre + t);
    lemma_scan_plain_prefix(pre, t);
    assert(t[0] == '{');
    assert(t.drop_first() =~= body + seq!['}'] + rest);
    lemma_scan_body(body, rest, seq!['{']);
    assert((seq!['{'] + body).push('}') =~= seq!['{'] + body + seq!['}']);
}

/// A line with no braces at all yields no tags.
pub proof fn lemma_plain_line_tags(s: Seq<char>)
    requires
        brace_free(s),
    ensures
        line_tags(s) == Set::<Seq<char>>::empty(),
{
    lemma_scan_plain_prefix(s, Seq::empty());
    assert(s + Seq::<char>::empty() =~= s);
}

/// A line made of plain text and markers: each segment is brace-free
/// text followed by one `{...}` marker, and `tail` is brace-free text
/// after the last marker.
pub open spec fn marker_line(segs: Seq<(Seq<char>, Seq<char>)>, tail: Seq<char>) -> Seq<char>
    decreases segs.len(),
{
    if segs.len() == 0 {
        tail
    } else {
        segs[0].0 + seq!['{'] + segs[0].1 + seq!['}'] + marker_line(segs.drop_first(), tail)
    }
}

/// The lower-cased markers of such a line, braces included.
pub open spec fn marker_tags(segs: Seq<(Seq<char>, Seq<char>)>) -> Set<Seq<char>>
    decreases segs.len(),
{
    if segs.len() == 0 {
        Set::empty()
    } else {
        marker_tags(segs.drop_first()).insert(lower_of(seq!['{'] + segs[0].1 + seq!['}']))
    }
}

/// Well-formed segments: plain text and marker bodies both brace-free.
pub open spec fn balanced_segs(segs: Seq<(Seq<char>, Seq<char>)>) -> bool {
    forall|i: int| 0 <= i < segs.len() ==> brace_free(#[trigger] segs[i].0) && brace_free(segs[i].1)
}

/// A line whose markers are all balanced and unnested yields exactly the
/// lower-cased markers, each once however often it repeats.
pub proof fn lemma_balanced_line_tags(segs: Seq<(Seq<char>, Seq<char>)>, tail: Seq<char>)
    requires
        balanced_segs(segs),
        brace_free(tail),
    ensures
        line_tags(marker_line(segs, tail)) == marker_tags(segs),
    decreases segs.len(),
{
    if segs.len() == 0 {
        lemma_plain_line_tags(tail);
    } else {
        lemma_marker_tags(segs[0].0, segs[0].1, marker_line(segs.drop_first(), tail));
        assert forall|i: int|
            0 <= i < segs.drop_first().len() implies brace_free(
            #[trigger] segs.drop_first()[i].0,
        ) && brace_free(segs.drop_first()[i].1) by {
            assert(segs.drop_first()[i] == segs[i + 1]);
        }
        lemma_balanced_line_tags(segs.drop_first(), tail);
    }
}

/// The lines described by a sequence of balanced-line descriptions.
pub open spec fn marker_lines(ds: Seq<(Seq<(Seq<char>, Seq<char>)>, Seq<char>)>) -> Seq<Seq<char>>
    decreases ds.len(),
{
    if ds.len() == 0 {
        Seq::empty()
    } else {
        marker_lines(ds.drop_last()).push(marker_line(ds.last().0, ds.last().1))
    }
}

/// The lower-cased markers of all those lines together.
pub open spec fn marker_tags_text(ds: Seq<(Seq<(Seq<char>, Seq<char>)>, Seq<char>)>) -> Set<
    Seq<char>,
>
    decreases ds.len(),
{
    if ds.len() == 0 {
        Set::empty()
    } else {
        marker_tags_text(ds.drop_last()).union(marker_tags(ds.last().0))
    }
}

/// A text each of whose lines holds only balanced, unnested markers
/// yields exactly the lower-cased markers of all its lines, each once
/// however often it repeats.
pub proof fn lemma_balanced_text_tags(
    text: Seq<char>,
    ds: Seq<(Seq<(Seq<char>, Seq<char>)>, Seq<char>)>,
)
    requires
        lines_of(text) == marker_lines(ds),
        forall|i: int|
            0 <= i < ds.len() ==> balanced_segs(#[trigger] ds[i].0) && brace_free(ds[i].1),
    ensures
        tags_of(text) == marker_tags_text(ds),
{
    lemma_tags_of_lines_of_described(ds);
}

/// The lines of a described text carry exactly the described markers.
proof fn lemma_tags_of_lines_of_described(ds: Seq<(Seq<(Seq<char>, Seq<char>)>, Seq<char>)>)
    requires
        forall|i: int|
            0 <= i < ds.len() ==> balanced_segs(#[trigger] ds[i].0) && brace_free(ds[i].1),
    ensures
        tags_of_lines(marker_lines(ds)) == marker_tags_text(ds),
    decreases ds.len(),
{
    if ds.len() > 0 {
        let prev = ds.drop_last();
        assert forall|i: int|
            0 <= i < prev.len() implies balanced_segs(#[trigger] prev[i].0) && brace_free(
            prev[i].1,
        ) by {
            assert(prev[i] == ds[i]);
        }
        assert(marker_lines(ds).drop_last() =~= marker_lines(prev));
        assert(marker_lines(ds).last() == marker_line(ds.last().0, ds.last().1));
        lemma_tags_of_lines_of_described(prev);
        lemma_balanced_line_tags(ds.last().0, ds.last().1);
    }
}

/// Rebuilding the index from the same partitions, with nothing written
/// in between, always yields the same set.
pub proof fn lemma_build_idempotent(
    parts: Seq<(Seq<char>, Seq<char>)>,
    r1: Set<Seq<char>>,
    r2: Set<Seq<char>>,
)
    requires
        r1 == index_of(parts),
        r2 == index_of(parts),
    ensures
        r1 == r2,
{
}

/// The index after a series of submissions, oldest first, each merged in
/// turn onto what came before: the union of every submission's tags.
pub open spec fn union_tags(texts: Seq<Seq<char>>) -> Set<Seq<char>>
    decreases texts.len(),
{
    if texts.len() == 0 {
        Set::empty()
    } else {
        union_tags(texts.drop_last()).union(tags_of(texts.last()))
    }
}

/// A tag stands in the union exactly when some submission yields it.
pub proof fn lemma_union_tags_membership(texts: Seq<Seq<char>>)
    ensures
        forall|t: Seq<char>|
            #[trigger] union_tags(texts).contains(t) <==> exists|i: int|
                0 <= i < texts.len() && #[trigger] tags_of(texts[i]).contains(t),
    decreases texts.len(),
{
    if texts.len() > 0 {
        lemma_union_tags_membership(texts.drop_last());
        assert forall|t: Seq<char>| #[trigger] union_tags(texts).contains(t) implies exists|i: int|
            0 <= i < texts.len() && #[trigger] tags_of(texts[i]).contains(t) by {
            if union_tags(texts.drop_last()).contains(t) {
                let i = choose|i: int|
                    0 <= i < texts.drop_last().len() && #[trigger] tags_of(
                        texts.drop_last()[i],
                    ).contains(t);
                assert(texts.drop_last()[i] == texts[i]);
                assert(tags_of(texts[i]).contains(t));
            } else {
                assert(tags_of(texts[texts.len() - 1]).contains(t));
            }
        }
        assert forall|t: Seq<char>|
            (exists|i: int| 0 <= i < texts.len() && #[trigger] tags_of(texts[i]).contains(t))
            implies #[trigger] union_tags(texts).contains(t) by {
            let i = choose|i: int| 0 <= i < texts.len() && #[trigger] tags_of(texts[i]).contains(t);
            if i < texts.len() - 1 {
                assert(texts.drop_last()[i] == texts[i]);
                assert(tags_of(texts.drop_last()[i]).contains(t));
                assert(union_tags(texts.drop_last()).contains(t));
            }
        }
    }
}

/// Submissions merged in any order leave the same index: two series with
/// the same submissions, however arranged, have equal unions.
pub proof fn lemma_union_tags_order_independent(a: Seq<Seq<char>>, b: Seq<Seq<char>>)
    requires
        a.to_multiset() == b.to_multiset(),
    ensures
        union_tags(a) == union_tags(b),
{
    broadcast use vstd::seq_lib::group_to_multiset_ensures;

    lemma_union_tags_membership(a);
    lemma_union_tags_membership(b);
    assert forall|t: Seq<char>| union_tags(a).contains(t) implies union_tags(b).contains(t) by {
        let i = choose|i: int| 0 <= i < a.len() && #[trigger] tags_of(a[i]).contains(t);
        assert(a.contains(a[i]));
        assert(a.to_multiset().count(a[i]) > 0);
        assert(b.to_multiset().count(a[i]) > 0);
        assert(b.contains(a[i]));
        let j = choose|j: int| 0 <= j < b.len() && b[j] == a[i];
        assert(tags_of(b[j]).contains(t));
    }
    assert forall|t: Seq<char>| union_tags(b).contains(t) implies union_tags(a).contains(t) by {
        let i = choose|i: int| 0 <= i < b.len() && #[trigger] tags_of(b[i]).contains(t);
        assert(b.contains(b[i]));
        assert(b.to_multiset().count(b[i]) > 0);
        assert(a.to_multiset().count(b[i]) > 0);
        assert(a.contains(b[i]));
        let j = choose|j: int| 0 <= j < a.len() && a[j] == b[i];
        assert(tags_of(a[j]).contains(t));
    }
    assert(union_tags(a) =~= union_tags(b));
}

} // verus!
