//! One line of text, addressed by grapheme cluster.

use crate::display::{fg_reset, fg_reset_sequence, fg_rgb, fg_rgb_sequence};
use crate::grapheme::{
    cluster_at, graphemes, index_of_offset, join, lemma_cluster_at,
    lemma_later_cluster_begins_later, lemma_span_all, lemma_span_empty, lemma_span_holds_clusters,
    lemma_span_of_run, lemma_span_one, lemma_span_split, span, split_clusters, well_cut,
};
use crate::highlighting::{Highlighter, Style};
use crate::lines::{lemma_one_line_joined, one_line};
use crate::search::{
    find_first, find_last, first_occurrence, last_occurrence, lemma_first_occurrence,
    lemma_last_occurrence, lemma_occurs_in_part, lemma_occurs_in_whole, occurs_at,
};
use crate::text::chars_of;
use crate::SearchDirection;
use vstd::prelude::*;
use vstd::utf8::encode_utf8;

verus! {

/// `text` with `c` put in before its cluster `at`, or at the end where
/// `at` is no index of a cluster.
pub open spec fn text_inserted(text: Seq<char>, at: int, c: char) -> Seq<char> {
    text_head(text, at) + seq![c] + text_tail(text, at)
}

/// `text` with its cluster `at` taken out; `text` itself where there is no
/// such cluster.
pub open spec fn text_deleted(text: Seq<char>, at: int) -> Seq<char> {
    let clusters = graphemes(text);
    if 0 <= at < clusters.len() {
        span(clusters, 0, at) + span(clusters, at + 1, clusters.len() as int)
    } else {
        text
    }
}

/// The index of the cluster before which an edit at `at` takes place: `at`
/// itself, or the number of clusters where `at` is beyond them.
pub open spec fn clamped(clusters: Seq<Seq<char>>, at: int) -> int {
    if 0 <= at < clusters.len() {
        at
    } else {
        clusters.len() as int
    }
}

/// The clusters of `text` before cluster `at`, as text.
pub open spec fn text_head(text: Seq<char>, at: int) -> Seq<char> {
    let clusters = graphemes(text);
    span(clusters, 0, clamped(clusters, at))
}

/// The clusters of `text` from cluster `at` on, as text.
pub open spec fn text_tail(text: Seq<char>, at: int) -> Seq<char> {
    let clusters = graphemes(text);
    span(clusters, clamped(clusters, at), clusters.len() as int)
}

/// The red, green and blue of the colour in which digits are shown.
pub const DIGIT_RED: u8 = 220;

pub const DIGIT_GREEN: u8 = 163;

pub const DIGIT_BLUE: u8 = 163;

/// Whether `c` is one of `0` to `9`.
pub open spec fn is_digit(c: char) -> bool {
    '0' <= c <= '9'
}

/// What is shown for one cluster: a space for one that begins with a tab;
/// for one that begins with a digit, that digit between the sequence that
/// switches the digit colour on and the one that switches it off; any other
/// cluster as it is.
pub open spec fn rendered_cluster(cluster: Seq<char>) -> Seq<char> {
    if cluster.len() == 0 {
        cluster
    } else if cluster[0] == '\t' {
        seq![' ']
    } else if is_digit(cluster[0]) {
        fg_rgb_sequence(DIGIT_RED, DIGIT_GREEN, DIGIT_BLUE) + seq![cluster[0]]
            + fg_reset_sequence()
    } else {
        cluster
    }
}

/// What is shown for a run of clusters.
pub open spec fn rendered(clusters: Seq<Seq<char>>) -> Seq<char> {
    clusters.map_values(|cluster: Seq<char>| rendered_cluster(cluster)).flatten()
}

/// What is shown for clusters `start..end` of `text`, with `end` brought
/// down to the number of clusters and `start` down to `end`.
pub open spec fn text_rendered(text: Seq<char>, start: int, end: int) -> Seq<char> {
    let clusters = graphemes(text);
    let end = if end < clusters.len() { end } else { clusters.len() as int };
    let start = if start < end { start } else { end };
    rendered(clusters.subrange(start, end))
}

/// The part of `text` that a search from cluster `at` looks through: the
/// clusters from `at` on in a forward search, those before `at` in a
/// backward search.
pub open spec fn searched_part(text: Seq<char>, at: int, direction: SearchDirection) -> Seq<char> {
    if direction == SearchDirection::Forward {
        text_tail(text, at)
    } else {
        text_head(text, at)
    }
}

/// The occurrence of `needle` in `hay` that a search takes: the leftmost
/// in a forward search, the rightmost in a backward search.
pub open spec fn occurrence(hay: Seq<char>, needle: Seq<char>, direction: SearchDirection) -> Option<
    int,
> {
    if direction == SearchDirection::Forward {
        first_occurrence(hay, needle)
    } else {
        last_occurrence(hay, needle)
    }
}

/// Where a search for `query` in `text` from cluster `at` ends. The search
/// takes the leftmost or the rightmost occurrence of `query` in the part it
/// looks through. The occurrence counts only where a cluster of that part
/// begins at it; the result is the index of that cluster, counted from the
/// start of the row. Beyond the end of the row nothing is found.
pub open spec fn found_in(
    text: Seq<char>,
    query: Seq<char>,
    at: int,
    direction: SearchDirection,
) -> Option<int> {
    if at < 0 || at > graphemes(text).len() {
        None
    } else {
        let searched = searched_part(text, at, direction);
        let start = if direction == SearchDirection::Forward { at } else { 0 };
        match occurrence(searched, query, direction) {
            None => None,
            Some(offset) => match cluster_at(graphemes(searched), offset) {
                None => None,
                Some(index) => Some(start + index),
            },
        }
    }
}

/// The query stands in `text` where cluster `x` of `text` begins.
pub open spec fn matches_cluster(text: Seq<char>, query: Seq<char>, x: int) -> bool {
    &&& 0 <= x < graphemes(text).len()
    &&& occurs_at(text, query, span(graphemes(text), 0, x).len() as int)
}

/// The query stands where cluster `x` begins, and ends before cluster `at`.
pub open spec fn matches_before(text: Seq<char>, query: Seq<char>, at: int, x: int) -> bool {
    &&& x < at
    &&& matches_cluster(text, query, x)
    &&& span(graphemes(text), 0, x).len() + query.len() <= text_head(text, at).len()
}

/// `x` is the first cluster from `at` on at which the query stands.
pub open spec fn is_first_match(text: Seq<char>, query: Seq<char>, at: int, x: int) -> bool {
    &&& at <= x
    &&& matches_cluster(text, query, x)
    &&& forall|y: int| at <= y < x ==> !matches_cluster(text, query, y)
}

/// `x` is the last cluster at which the query stands and ends before
/// cluster `at`.
pub open spec fn is_last_match(text: Seq<char>, query: Seq<char>, at: int, x: int) -> bool {
    &&& matches_before(text, query, at, x)
    &&& forall|y: int| x < y ==> !matches_before(text, query, at, y)
}

/// The clusters of the part that a search looks through are the clusters
/// that the part is made of in the row.
pub open spec fn part_keeps_clusters(text: Seq<char>, at: int, direction: SearchDirection) -> bool {
    graphemes(searched_part(text, at, direction)) == if direction == SearchDirection::Forward {
        graphemes(text).skip(at)
    } else {
        graphemes(text).take(at)
    }
}

/// The occurrence that a search takes, if there is one, begins at a cluster
/// of the part that is looked through.
pub open spec fn occurrence_at_cluster(
    text: Seq<char>,
    query: Seq<char>,
    at: int,
    direction: SearchDirection,
) -> bool {
    let searched = searched_part(text, at, direction);
    occurrence(searched, query, direction) matches Some(offset) ==> cluster_at(
        graphemes(searched),
        offset,
    ) is Some
}

/// What a row of `count` clusters keeps of the annotations it is given.
pub open spec fn kept(annotations: Seq<Style>, count: nat) -> Seq<Style> {
    if annotations.len() == count {
        annotations
    } else {
        Seq::empty()
    }
}

/// A line of text with the number of its grapheme clusters.
pub struct Row {
    string: String,
    highlighting: Vec<Style>,
    len: usize,
}

impl View for Row {
    type V = Seq<char>;

    closed spec fn view(&self) -> Seq<char> {
        self.string@
    }
}

impl Row {
    /// The cluster count that the row holds for its text.
    pub closed spec fn count(&self) -> nat {
        self.len as nat
    }

    /// The display annotations that the row holds.
    pub closed spec fn styles(&self) -> Seq<Style> {
        self.highlighting@
    }

    /// The annotations of the row are what it keeps of an answer that
    /// `highlighter` gives when it is asked about the text of the row and
    /// `word`.
    pub open spec fn annotated_by<H: Highlighter>(
        &self,
        highlighter: &H,
        word: Option<&str>,
    ) -> bool {
        exists|text: &str, answer: Vec<Style>|
            text@ == self@ && call_ensures(H::annotate, (highlighter, text, word), answer)
                && self.styles() == kept(answer@, self.count())
    }

    /// The text is well cut, the count is that of its clusters, and
    /// annotations, where there are any, come one per cluster.
    pub open spec fn wf(&self) -> bool {
        &&& well_cut(self@)
        &&& self.count() == graphemes(self@).len()
        &&& (self.styles().len() == 0 || self.styles().len() == self.count())
    }

    /// The number of grapheme clusters in the row.
    pub fn len(&self) -> (n: usize)
        requires
            self.wf(),
        ensures
            n == graphemes(self@).len(),
    {
        self.len
    }

    /// Whether the row holds no cluster.
    pub fn is_empty(&self) -> (empty: bool)
        requires
            self.wf(),
        ensures
            empty == (graphemes(self@).len() == 0),
    {
        self.len == 0
    }

    /// Counts the clusters of the text anew and drops the annotations, which
    /// belonged to the text as it was.
    fn update_len(&mut self)
        ensures
            final(self).wf(),
            final(self)@ == old(self)@,
            final(self).styles().len() == 0,
    {
        let clusters = split_clusters(self.string.as_str());
        self.len = clusters.len();
        self.highlighting = Vec::new();
    }

    /// Puts `c` in before cluster `at`, or at the end where `at` is no
    /// index of a cluster.
    pub fn insert(&mut self, at: usize, c: char)
        requires
            old(self).wf(),
        ensures
            final(self).wf(),
            final(self)@ == text_inserted(old(self)@, at as int, c),
            final(self).styles().len() == 0,
    {
        let clusters = split_clusters(self.string.as_str());
        let ghost all = clusters.deep_view();
        if at >= clusters.len() {
            proof {
                lemma_span_all(all);
                lemma_span_empty(all, all.len() as int);
            }
            self.string.push(c);
        } else {
            let mut result = join(&clusters, 0, at);
            let remainder = join(&clusters, at, clusters.len());
            result.push(c);
            result.append(remainder.as_str());
            self.string = result;
        }
        self.update_len();
    }

    /// Takes out cluster `at`; does nothing where there is no such cluster.
    pub fn delete(&mut self, at: usize)
        requires
            old(self).wf(),
        ensures
            final(self).wf(),
            final(self)@ == text_deleted(old(self)@, at as int),
            at >= graphemes(old(self)@).len() ==> final(self).styles() == old(self).styles(),
            at < graphemes(old(self)@).len() ==> final(self).styles().len() == 0,
    {
        if at >= self.len() {
            return ;
        }
        let clusters = split_clusters(self.string.as_str());
        let mut result = join(&clusters, 0, at);
        let remainder = join(&clusters, at + 1, clusters.len());
        result.append(remainder.as_str());
        self.string = result;
        self.update_len();
    }

    /// Adds the text of `new` to the end of the row.
    pub fn append(&mut self, new: &Row)
        requires
            old(self).wf(),
        ensures
            final(self).wf(),
            final(self)@ == old(self)@ + new@,
            final(self).styles().len() == 0,
    {
        self.string.append(new.string.as_str());
        self.update_len();
    }

    /// Cuts the row before cluster `at`: the row keeps the clusters before
    /// it and the clusters from it on come back as a row of their own.
    pub fn split(&mut self, at: usize) -> (rest: Row)
        requires
            old(self).wf(),
        ensures
            final(self).wf(),
            rest.wf(),
            final(self)@ == text_head(old(self)@, at as int),
            rest@ == text_tail(old(self)@, at as int),
            final(self).styles().len() == 0,
            rest.styles().len() == 0,
    {
        let clusters = split_clusters(self.string.as_str());
        let cut: usize = if at < clusters.len() { at } else { clusters.len() };
        let head = join(&clusters, 0, cut);
        let tail = join(&clusters, cut, clusters.len());
        self.string = head;
        self.update_len();
        Row::from(tail.as_str())
    }

    /// The text of the row.
    pub fn as_str(&self) -> (text: &str)
        ensures
            text@ == self@,
    {
        self.string.as_str()
    }

    /// The text of the row in UTF-8.
    pub fn as_bytes(&self) -> (bytes: &[u8])
        ensures
            bytes@ == encode_utf8(self@),
    {
        self.string.as_str().as_bytes()
    }

    /// The text to show for clusters `start..end`.
    pub fn render(&self, start: usize, end: usize) -> (text: String)
        requires
            self.wf(),
        ensures
            text@ == text_rendered(self@, start as int, end as int),
    {
        let end: usize = if end < self.len { end } else { self.len };
        let start: usize = if start < end { start } else { end };
        let clusters = split_clusters(self.string.as_str());
        let ghost shown = |cluster: Seq<char>| rendered_cluster(cluster);
        let ghost all = clusters.deep_view();
        let mut result = String::new();
        let mut i: usize = start;
        assert(all.subrange(start as int, start as int).map_values(shown) =~= Seq::<
            Seq<char>,
        >::empty());
        while i < end
            invariant
                start <= i <= end <= clusters.len(),
                all == clusters.deep_view(),
                forall|k: int| 0 <= k < all.len() ==> #[trigger] all[k].len() > 0,
                shown == |cluster: Seq<char>| rendered_cluster(cluster),
                result@ == all.subrange(start as int, i as int).map_values(shown).flatten(),
            decreases end - i,
        {
            let cluster = clusters[i].as_str();
            proof {
                assert(all.subrange(start as int, i + 1).map_values(shown) =~= all.subrange(
                    start as int,
                    i as int,
                ).map_values(shown).push(rendered_cluster(all[i as int])));
                all.subrange(start as int, i as int).map_values(shown).lemma_flatten_push(
                    rendered_cluster(all[i as int]),
                );
            }
            let c = cluster.get_char(0);
            if c == '\t' {
                proof {
                    reveal_strlit(" ");
                }
                result.append(" ");
            } else if '0' <= c && c <= '9' {
                let on = fg_rgb(DIGIT_RED, DIGIT_GREEN, DIGIT_BLUE);
                let off = fg_reset();
                result.append(on.as_str());
                result.push(c);
                result.append(off.as_str());
            } else {
                result.append(cluster);
            }
            i += 1;
        }
        result
    }

    /// Looks for `query` from cluster `at`, towards the end of the row or
    /// towards its start, and gives the index of the cluster at which it
    /// was found.
    pub fn find(&self, query: &str, at: usize, direction: SearchDirection) -> (found: Option<usize>)
        requires
            self.wf(),
        ensures
            match found {
                Some(x) => found_in(self@, query@, at as int, direction) == Some(x as int),
                None => found_in(self@, query@, at as int, direction) is None,
            },
    {
        if at > self.len {
            return None;
        }
        let clusters = split_clusters(self.string.as_str());
        let ghost all = clusters.deep_view();
        // No cluster is empty, so the number of characters bounds every
        // index of a cluster: the sum at the end cannot overflow.
        let length = self.string.as_str().unicode_len();
        let start: usize = if direction == SearchDirection::Forward { at } else { 0 };
        let end: usize = if direction == SearchDirection::Forward { self.len } else { at };
        let searched = join(&clusters, start, end);
        let hay = chars_of(searched.as_str());
        let needle = chars_of(query);
        assert(hay@.len() == hay.len());
        let occurrence = if direction == SearchDirection::Forward {
            find_first(hay.as_slice(), needle.as_slice())
        } else {
            find_last(hay.as_slice(), needle.as_slice())
        };
        match occurrence {
            None => None,
            Some(offset) => {
                let pieces = split_clusters(searched.as_str());
                match index_of_offset(&pieces, offset) {
                    None => None,
                    Some(index) => {
                        proof {
                            let parts = pieces.deep_view();
                            lemma_span_holds_clusters(parts, 0, parts.len() as int);
                            lemma_span_all(parts);
                            lemma_span_holds_clusters(all, 0, start as int);
                            lemma_span_split(all, 0, start as int, end as int);
                            lemma_span_split(all, 0, end as int, all.len() as int);
                            lemma_span_all(all);
                        }
                        Some(start + index)
                    },
                }
            },
        }
    }

    /// The annotations that the row holds.
    pub fn highlighting(&self) -> (styles: &Vec<Style>)
        ensures
            styles@ == self.styles(),
    {
        &self.highlighting
    }

    /// Takes annotations for the row as it stands: they are kept where
    /// there is one for each cluster, and dropped otherwise.
    pub fn set_highlighting(&mut self, annotations: Vec<Style>)
        requires
            old(self).wf(),
        ensures
            final(self).wf(),
            final(self)@ == old(self)@,
            final(self).styles() == kept(annotations@, old(self).count()),
    {
        if annotations.len() == self.len {
            self.highlighting = annotations;
        } else {
            self.highlighting = Vec::new();
        }
    }

    /// Asks `highlighter` for the annotations of the row and takes what it
    /// answers.
    pub fn highlight<H: Highlighter>(&mut self, highlighter: &H, word: Option<&str>)
        requires
            old(self).wf(),
        ensures
            final(self).wf(),
            final(self)@ == old(self)@,
            final(self).annotated_by(highlighter, word),
    {
        let text = self.string.as_str();
        let annotations = highlighter.annotate(text, word);
        self.set_highlighting(annotations);
    }
}

impl From<&str> for Row {
    /// A row of the given text, without annotations.
    fn from(slice: &str) -> (row: Row)
        ensures
            row.wf(),
            row@ == slice@,
            row.styles().len() == 0,
    {
        let clusters = split_clusters(slice);
        Row { string: String::from_str(slice), highlighting: Vec::new(), len: clusters.len() }
    }
}

/// What `from` gives is stated by its own `ensures`: a row cannot be
/// written down as a value of a spec function of the text.
impl vstd::std_specs::convert::FromSpecImpl<&str> for Row {
    open spec fn obeys_from_spec() -> bool {
        false
    }

    open spec fn from_spec(slice: &str) -> Row {
        arbitrary()
    }
}

impl Default for Row {
    /// A row without text.
    fn default() -> (row: Row)
        ensures
            row.wf(),
            row@ == Seq::<char>::empty(),
            row.styles().len() == 0,
    {
        let row = Row::from("");
        proof {
            reveal_strlit("");
        }
        row
    }
}

/// `c`, put in before cluster `at` of `text`, is a cluster of its own in
/// the new text: cluster `at` there is `c` alone, and the clusters before it
/// are the text that stood before the place of insertion.
pub open spec fn stands_alone(text: Seq<char>, at: int, c: char) -> bool {
    let after = graphemes(text_inserted(text, at, c));
    &&& 0 <= at < after.len()
    &&& after[at] == seq![c]
    &&& span(after, 0, at) == text_head(text, at)
}

/// A cut before any cluster parts the text in two that join to it again:
/// no character is lost, doubled or moved.
pub proof fn lemma_head_and_tail_join(text: Seq<char>, at: int)
    requires
        well_cut(text),
    ensures
        text_head(text, at) + text_tail(text, at) == text,
{
    let clusters = graphemes(text);
    lemma_span_split(clusters, 0, clamped(clusters, at), clusters.len() as int);
    lemma_span_all(clusters);
}

/// An edit within a line leaves a line: cutting the text, deleting a
/// cluster, or putting in a character other than a line feed brings no line
/// feed into a text that holds none.
pub proof fn lemma_edits_keep_one_line(text: Seq<char>, at: int, c: char)
    requires
        well_cut(text),
        one_line(text),
    ensures
        one_line(text_head(text, at)),
        one_line(text_tail(text, at)),
        one_line(text_deleted(text, at)),
        c != '\n' ==> one_line(text_inserted(text, at, c)),
{
    let clusters = graphemes(text);
    let count = clusters.len() as int;
    let head = text_head(text, at);
    let tail = text_tail(text, at);
    lemma_head_and_tail_join(text, at);
    lemma_one_line_joined(head, tail);
    lemma_one_line_joined(head, seq![c]);
    lemma_one_line_joined(head + seq![c], tail);
    if 0 <= at < count {
        lemma_span_split(clusters, at, at + 1, count);
        lemma_one_line_joined(span(clusters, at, at + 1), span(clusters, at + 1, count));
        lemma_one_line_joined(span(clusters, 0, at), span(clusters, at + 1, count));
    }
}

/// Splitting a row and appending what was split off to what stayed gives
/// the text of the row back, character for character, and with it the
/// number of clusters.
pub proof fn lemma_split_then_append(row: Row, head: Row, tail: Row, joined: Row, at: usize)
    requires
        row.wf(),
        joined.wf(),
        head@ == text_head(row@, at as int),
        tail@ == text_tail(row@, at as int),
        joined@ == head@ + tail@,
    ensures
        joined@ == row@,
        joined.count() == row.count(),
{
    lemma_head_and_tail_join(row@, at as int);
}

/// Putting a character in before cluster `at` and then deleting cluster
/// `at` gives the row back, text and number of clusters, wherever the
/// character came to stand as a cluster of its own. (One that joins a
/// neighbouring cluster, as a combining mark does, is not deleted alone.)
pub proof fn lemma_insert_then_delete(row: Row, inserted: Row, deleted: Row, at: usize, c: char)
    requires
        row.wf(),
        inserted.wf(),
        deleted.wf(),
        inserted@ == text_inserted(row@, at as int, c),
        deleted@ == text_deleted(inserted@, at as int),
        stands_alone(row@, at as int, c),
    ensures
        deleted@ == row@,
        deleted.count() == row.count(),
{
    let head = text_head(row@, at as int);
    let tail = text_tail(row@, at as int);
    let after = graphemes(inserted@);
    let rest = span(after, at + 1, after.len() as int);
    lemma_head_and_tail_join(row@, at as int);
    lemma_span_split(after, 0, at as int, after.len() as int);
    lemma_span_split(after, at as int, at + 1, after.len() as int);
    lemma_span_one(after, at as int);
    lemma_span_all(after);
    assert(inserted@ == head + seq![c] + rest);
    assert(rest =~= tail) by {
        assert forall|i: int| 0 <= i < rest.len() implies rest[i] == tail[i] by {
            assert((head + seq![c] + tail)[head.len() + 1 + i] == tail[i]);
        }
    }
}

/// Deleting cluster `at` takes the characters of that cluster, all of them
/// and no others: what stood before and after it stays as it was.
pub proof fn lemma_delete_takes_whole_cluster(row: Row, at: int)
    requires
        row.wf(),
        0 <= at < row.count(),
    ensures
        row@ == span(graphemes(row@), 0, at) + graphemes(row@)[at] + span(
            graphemes(row@),
            at + 1,
            row.count() as int,
        ),
        text_deleted(row@, at) == span(graphemes(row@), 0, at) + span(
            graphemes(row@),
            at + 1,
            row.count() as int,
        ),
        text_deleted(row@, at).len() < row@.len(),
{
    let clusters = graphemes(row@);
    lemma_span_split(clusters, 0, at, clusters.len() as int);
    lemma_span_split(clusters, at, at + 1, clusters.len() as int);
    lemma_span_one(clusters, at);
    lemma_span_all(clusters);
}

/// A query that stands nowhere in the row is not found, from whichever
/// cluster and in whichever direction the search goes.
pub proof fn lemma_find_absent(
    text: Seq<char>,
    query: Seq<char>,
    at: int,
    direction: SearchDirection,
)
    requires
        well_cut(text),
        forall|offset: int| !occurs_at(text, query, offset),
    ensures
        found_in(text, query, at, direction) is None,
{
    let clusters = graphemes(text);
    if 0 <= at <= clusters.len() {
        let searched = searched_part(text, at, direction);
        let head = text_head(text, at);
        let tail = text_tail(text, at);
        lemma_head_and_tail_join(text, at);
        assert forall|offset: int| !occurs_at(searched, query, offset) by {
            if occurs_at(searched, query, offset) {
                if direction == SearchDirection::Forward {
                    lemma_occurs_in_whole(head, tail, Seq::empty(), query, offset);
                } else {
                    lemma_occurs_in_whole(Seq::empty(), head, tail, query, offset);
                }
            }
        }
        lemma_first_occurrence(searched, query);
        lemma_last_occurrence(searched, query);
    }
}

/// What a forward search from cluster `at` reports is the leftmost
/// occurrence of the query that begins at or after cluster `at`: the query
/// stands in the row where the reported cluster of the searched part
/// begins, and nowhere between the start of cluster `at` and that place.
pub proof fn lemma_find_forward_leftmost(text: Seq<char>, query: Seq<char>, at: int, x: int)
    requires
        well_cut(text),
        found_in(text, query, at, SearchDirection::Forward) == Some(x),
    ensures
        at <= x < at + graphemes(text_tail(text, at)).len(),
        ({
            let head = text_head(text, at);
            let pieces = graphemes(text_tail(text, at));
            let offset = span(pieces, 0, x - at).len();
            &&& occurs_at(text, query, (head.len() + offset) as int)
            &&& forall|j: int| head.len() <= j < head.len() + offset ==> !occurs_at(text, query, j)
        }),
{
    let head = text_head(text, at);
    let tail = text_tail(text, at);
    let pieces = graphemes(tail);
    lemma_first_occurrence(tail, query);
    let first = first_occurrence(tail, query)->0;
    lemma_cluster_at(pieces, first);
    lemma_head_and_tail_join(text, at);
    lemma_occurs_in_whole(head, tail, Seq::empty(), query, first);
    assert forall|j: int| head.len() <= j < head.len() + first implies !occurs_at(
        text,
        query,
        j,
    ) by {
        if occurs_at(text, query, j) {
            lemma_occurs_in_part(head, tail, Seq::empty(), query, j - head.len());
        }
    }
}

/// What a backward search from cluster `at` reports is the rightmost
/// occurrence of the query that ends before cluster `at`: the query stands
/// in the row where the reported cluster of the searched part begins, and
/// nowhere further on where it would still end before cluster `at`.
pub proof fn lemma_find_backward_rightmost(text: Seq<char>, query: Seq<char>, at: int, x: int)
    requires
        well_cut(text),
        found_in(text, query, at, SearchDirection::Backward) == Some(x),
    ensures
        0 <= x < graphemes(text_head(text, at)).len(),
        ({
            let head = text_head(text, at);
            let offset = span(graphemes(head), 0, x).len();
            &&& occurs_at(text, query, offset as int)
            &&& offset + query.len() <= head.len()
            &&& forall|j: int|
                offset < j && j + query.len() <= head.len() ==> !occurs_at(text, query, j)
        }),
{
    let head = text_head(text, at);
    let tail = text_tail(text, at);
    let pieces = graphemes(head);
    lemma_last_occurrence(head, query);
    let last = last_occurrence(head, query)->0;
    lemma_cluster_at(pieces, last);
    lemma_head_and_tail_join(text, at);
    lemma_occurs_in_whole(Seq::empty(), head, tail, query, last);
    assert forall|j: int| last < j && j + query.len() <= head.len() implies !occurs_at(
        text,
        query,
        j,
    ) by {
        if occurs_at(text, query, j) {
            lemma_occurs_in_part(Seq::empty(), head, tail, query, j);
        }
    }
}

/// Where the searched part keeps the clusters it has in the row, what a
/// forward search reports is the first cluster from `at` on at which the
/// query stands.
pub proof fn lemma_found_forward_is_first_match(text: Seq<char>, query: Seq<char>, at: int, x: int)
    requires
        well_cut(text),
        part_keeps_clusters(text, at, SearchDirection::Forward),
        found_in(text, query, at, SearchDirection::Forward) == Some(x),
    ensures
        is_first_match(text, query, at, x),
{
    let clusters = graphemes(text);
    let count = clusters.len() as int;
    let pieces = graphemes(text_tail(text, at));
    lemma_find_forward_leftmost(text, query, at, x);
    lemma_first_occurrence(text_tail(text, at), query);
    lemma_cluster_at(pieces, first_occurrence(text_tail(text, at), query)->0);
    lemma_span_of_run(clusters, at, count, 0, x - at);
    lemma_span_split(clusters, 0, at, x);
    assert forall|y: int| at <= y < x implies !matches_cluster(text, query, y) by {
        lemma_span_split(clusters, 0, at, y);
        lemma_later_cluster_begins_later(clusters, y, x);
    }
}

/// Where the searched part keeps the clusters it has in the row, and the
/// leftmost occurrence of the query in it begins at a cluster, a forward
/// search from cluster `at` reports the first cluster from `at` on at which
/// the query stands, and reports nothing only where there is no such
/// cluster.
pub proof fn lemma_find_forward_first_match(text: Seq<char>, query: Seq<char>, at: int, x: int)
    requires
        well_cut(text),
        0 <= at <= graphemes(text).len(),
        part_keeps_clusters(text, at, SearchDirection::Forward),
        occurrence_at_cluster(text, query, at, SearchDirection::Forward),
    ensures
        found_in(text, query, at, SearchDirection::Forward) == Some(x) <==> is_first_match(
            text,
            query,
            at,
            x,
        ),
{
    let clusters = graphemes(text);
    let head = text_head(text, at);
    let tail = text_tail(text, at);
    if found_in(text, query, at, SearchDirection::Forward) == Some(x) {
        lemma_found_forward_is_first_match(text, query, at, x);
    }
    if is_first_match(text, query, at, x) {
        lemma_head_and_tail_join(text, at);
        lemma_span_split(clusters, 0, at, x);
        lemma_occurs_in_part(head, tail, Seq::empty(), query, span(clusters, at, x).len() as int);
        lemma_first_occurrence(tail, query);
        let found = found_in(text, query, at, SearchDirection::Forward)->0;
        lemma_found_forward_is_first_match(text, query, at, found);
    }
}

/// Where the searched part keeps the clusters it has in the row, what a
/// backward search reports is the last cluster at which the query stands
/// and ends before cluster `at`.
pub proof fn lemma_found_backward_is_last_match(text: Seq<char>, query: Seq<char>, at: int, x: int)
    requires
        well_cut(text),
        part_keeps_clusters(text, at, SearchDirection::Backward),
        found_in(text, query, at, SearchDirection::Backward) == Some(x),
    ensures
        is_last_match(text, query, at, x),
{
    let clusters = graphemes(text);
    let pieces = graphemes(text_head(text, at));
    lemma_find_backward_rightmost(text, query, at, x);
    lemma_last_occurrence(text_head(text, at), query);
    lemma_cluster_at(pieces, last_occurrence(text_head(text, at), query)->0);
    lemma_span_of_run(clusters, 0, at, 0, x);
    assert forall|y: int| x < y implies !matches_before(text, query, at, y) by {
        if y < at {
            lemma_later_cluster_begins_later(clusters, x, y);
        }
    }
}

/// Where the searched part keeps the clusters it has in the row, and the
/// rightmost occurrence of the query in it begins at a cluster, a backward
/// search from cluster `at` reports the last cluster at which the query
/// stands and ends before cluster `at`, and reports nothing only where
/// there is no such cluster.
pub proof fn lemma_find_backward_last_match(text: Seq<char>, query: Seq<char>, at: int, x: int)
    requires
        well_cut(text),
        0 <= at <= graphemes(text).len(),
        part_keeps_clusters(text, at, SearchDirection::Backward),
        occurrence_at_cluster(text, query, at, SearchDirection::Backward),
    ensures
        found_in(text, query, at, SearchDirection::Backward) == Some(x) <==> is_last_match(
            text,
            query,
            at,
            x,
        ),
{
    let clusters = graphemes(text);
    let head = text_head(text, at);
    let tail = text_tail(text, at);
    if found_in(text, query, at, SearchDirection::Backward) == Some(x) {
        lemma_found_backward_is_last_match(text, query, at, x);
    }
    if is_last_match(text, query, at, x) {
        lemma_head_and_tail_join(text, at);
        lemma_occurs_in_part(Seq::empty(), head, tail, query, span(clusters, 0, x).len() as int);
        lemma_last_occurrence(head, query);
        let found = found_in(text, query, at, SearchDirection::Backward)->0;
        lemma_found_backward_is_last_match(text, query, at, found);
    }
}

} // verus!
