//! The segmenter: top-level comma-separated segments of a composite body,
//! handed out one at a time.
use vstd::prelude::*;
use vstd::string::StrSliceExecFns;
use crate::scan::{
    chars_of, depth_at, find_unnested_in, first_unnested, is_first_unnested, lemma_depth_concat,
    lemma_depth_prefix, lemma_first_unnested_some, unnested_at,
};

verus! {

broadcast use vstd::string::group_string_axioms;

/// The segments of `body`: split at each comma outside `[`/`]`, left to
/// right; an empty body has none, and a body that ends in such a comma has
/// no empty last segment.
pub open spec fn segments(body: Seq<char>) -> Seq<Seq<char>>
    decreases body.len(),
{
    if body.len() == 0 {
        Seq::empty()
    } else {
        match first_unnested(body, ',', '[', ']') {
            Some(i) if 0 <= i < body.len() => seq![body.take(i)] + segments(body.skip(i + 1)),
            _ => seq![body],
        }
    }
}

/// A single pass over the segments of a text.
#[derive(Debug)]
pub struct EntryIter {
    content: String,
    chars: Vec<char>,
    index: usize,
    content_len: usize,
}

impl EntryIter {
    /// The text being segmented.
    pub closed spec fn text(&self) -> Seq<char> {
        self.content@
    }

    /// How many characters have been consumed.
    pub closed spec fn cursor(&self) -> int {
        self.index as int
    }

    pub closed spec fn wf(&self) -> bool {
        &&& self.chars@ == self.content@
        &&& self.content_len == self.chars.len()
        &&& self.index <= self.content_len
    }

    /// The segments not handed out yet.
    pub open spec fn remaining(&self) -> Seq<Seq<char>> {
        segments(self.text().skip(self.cursor()))
    }

    /// A segmenter at the start of `content`.
    pub fn iter(content: &str) -> (r: EntryIter)
        ensures
            r.wf(),
            r.text() == content@,
            r.cursor() == 0,
            r.text().len() == content@.len(),
            r.remaining() == segments(content@),
    {
        let chars = chars_of(content);
        let n = chars.len();
        let r = EntryIter { content: content.to_owned(), chars, index: 0, content_len: n };
        assert(r.text().skip(0) =~= content@);
        r
    }

    /// The next segment, or `None` once the text is used up (and then again
    /// at every later call).
    pub fn next(&mut self) -> (r: Option<String>)
        requires
            old(self).wf(),
        ensures
            final(self).wf(),
            final(self).text() == old(self).text(),
            old(self).cursor() <= final(self).cursor() <= final(self).text().len(),
            r is None ==> final(self).cursor() == old(self).cursor(),
            match r {
                None => old(self).remaining() == Seq::<Seq<char>>::empty(),
                Some(s) => old(self).remaining() == seq![s@] + final(self).remaining(),
            },
    {
        let ghost rest = self.text().skip(self.cursor());
        if self.index >= self.content_len {
            assert(rest.len() == 0);
            return None;
        }
        let start = self.index;
        let n = self.content_len;
        assert(self.chars@.subrange(start as int, n as int) =~= rest);
        match find_unnested_in(&self.chars, start, n, ',', '[', ']') {
            Some(i) => {
                let seg = self.content.as_str().substring_char(start, start + i).to_owned();
                self.index = start + i + 1;
                assert(seg@ =~= rest.take(i as int));
                assert(self.text().skip(self.cursor()) =~= rest.skip(i + 1));
                Some(seg)
            },
            None => {
                let seg = self.content.as_str().substring_char(start, n).to_owned();
                self.index = n;
                assert(seg@ =~= rest);
                assert(self.text().skip(self.cursor()) =~= Seq::<char>::empty());
                assert(seq![seg@] + Seq::<Seq<char>>::empty() =~= seq![seg@]);
                Some(seg)
            },
        }
    }
}

} // verus!

verus! {

/// `segs` joined with commas.
pub open spec fn join_segments(segs: Seq<Seq<char>>) -> Seq<char>
    decreases segs.len(),
{
    if segs.len() == 0 {
        Seq::empty()
    } else if segs.len() == 1 {
        segs[0]
    } else {
        segs[0] + seq![','] + join_segments(segs.drop_first())
    }
}

/// `body` ends in a comma at bracket depth zero.
pub open spec fn ends_in_unnested_comma(body: Seq<char>) -> bool {
    body.len() > 0 && unnested_at(body, body.len() - 1, ',', '[', ']')
}

/// The segments, joined again with the commas that were consumed between
/// them, give back the body exactly; a comma at its end at bracket depth zero
/// is consumed too and is the one character that joining does not restore.
pub proof fn lemma_segments_rebuild(body: Seq<char>)
    ensures
        body == if ends_in_unnested_comma(body) {
            join_segments(segments(body)) + seq![',']
        } else {
            join_segments(segments(body))
        },
    decreases body.len(),
{
    if body.len() > 0 {
        match first_unnested(body, ',', '[', ']') {
            Some(i) => {
                let w = choose|w: int| is_first_unnested(body, w, ',', '[', ']');
                assert(w == i);
                assert(body[i] == ',');
                let head = body.take(i);
                let hc = head + seq![','];
                let rest = body.skip(i + 1);
                assert(body =~= hc + rest);
                assert(depth_at(body, i + 1, '[', ']') == 0);
                lemma_depth_prefix(hc, rest, i + 1, '[', ']');
                lemma_segments_rebuild(rest);
                let segs = segments(body);
                assert(segs == seq![head] + segments(rest));
                if rest.len() == 0 {
                    assert(segs =~= seq![head]);
                    assert(ends_in_unnested_comma(body));
                } else {
                    let n = rest.len() as int;
                    lemma_depth_concat(hc, rest, n);
                    assert(body[body.len() - 1] == rest[n - 1]);
                    assert(body.len() - 1 + 1 == hc.len() + n);
                    assert(ends_in_unnested_comma(body) == ends_in_unnested_comma(rest));
                    assert(segments(rest).len() > 0);
                    assert(segs.drop_first() =~= segments(rest));
                    let j = join_segments(segments(rest));
                    assert(join_segments(segs) == head + seq![','] + j);
                    if ends_in_unnested_comma(rest) {
                        assert(body =~= (head + seq![','] + j) + seq![',']);
                    } else {
                        assert(body =~= head + seq![','] + j);
                    }
                }
            },
            None => {
                if ends_in_unnested_comma(body) {
                    lemma_first_unnested_some(body, body.len() - 1, ',', '[', ']');
                }
            },
        }
    }
}

} // verus!
