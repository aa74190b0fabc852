//! Grapheme clusters, the unit in which rows are addressed, and the joining
//! of runs of clusters back into text.

use unicode_segmentation::UnicodeSegmentation;
use vstd::prelude::*;
use vstd::seq_lib::lemma_flatten_concat;

verus! {

/// The extended grapheme clusters of `text`, in order, as
/// `unicode_segmentation` cuts them.
pub uninterp spec fn graphemes(text: Seq<char>) -> Seq<Seq<char>>;

/// The clusters of `text`, laid end to end, are `text` again, and none of
/// them is empty.
pub open spec fn well_cut(text: Seq<char>) -> bool {
    &&& graphemes(text).flatten() == text
    &&& forall|i: int| 0 <= i < graphemes(text).len() ==> #[trigger] graphemes(text)[i].len() > 0
}

/// The text made of clusters `from..to` of `clusters`.
pub open spec fn span(clusters: Seq<Seq<char>>, from: int, to: int) -> Seq<char> {
    clusters.subrange(from, to).flatten()
}

/// Calls `UnicodeSegmentation::graphemes` with extended clusters switched on
/// and copies each slice it yields. Trusted: the result is what the name
/// `graphemes` stands for; the iterator hands out consecutive slices that
/// cover the whole input, so the pieces joined in order are the input; and
/// it moves past at least one character for each slice, so none is empty.
#[verifier::external_body]
pub(crate) fn split_clusters(text: &str) -> (clusters: Vec<String>)
    ensures
        clusters.deep_view() == graphemes(text@),
        clusters.deep_view().flatten() == text@,
        forall|i: int| 0 <= i < clusters.len() ==> #[trigger] clusters.deep_view()[i].len() > 0,
{
    UnicodeSegmentation::graphemes(text, true).map(String::from).collect()
}

/// A run of clusters that ends where the next begins joins them both.
pub proof fn lemma_span_split(clusters: Seq<Seq<char>>, from: int, mid: int, to: int)
    requires
        0 <= from <= mid <= to <= clusters.len(),
    ensures
        span(clusters, from, to) == span(clusters, from, mid) + span(clusters, mid, to),
{
    assert(clusters.subrange(from, to) =~= clusters.subrange(from, mid) + clusters.subrange(
        mid,
        to,
    ));
    lemma_flatten_concat(clusters.subrange(from, mid), clusters.subrange(mid, to));
}

/// A run of one cluster is that cluster.
pub proof fn lemma_span_one(clusters: Seq<Seq<char>>, at: int)
    requires
        0 <= at < clusters.len(),
    ensures
        span(clusters, at, at + 1) == clusters[at],
{
    assert(clusters.subrange(at, at + 1) =~= seq![clusters[at]]);
    seq![clusters[at]].lemma_flatten_one_element();
}

/// An empty run is empty text.
pub proof fn lemma_span_empty(clusters: Seq<Seq<char>>, at: int)
    requires
        0 <= at <= clusters.len(),
    ensures
        span(clusters, at, at) == Seq::<char>::empty(),
{
}

/// The whole run is the flattened sequence.
pub proof fn lemma_span_all(clusters: Seq<Seq<char>>)
    ensures
        span(clusters, 0, clusters.len() as int) == clusters.flatten(),
{
    assert(clusters.subrange(0, clusters.len() as int) =~= clusters);
}

/// A run of clusters, none of them empty, holds at least as many characters
/// as clusters.
pub proof fn lemma_span_holds_clusters(clusters: Seq<Seq<char>>, from: int, to: int)
    requires
        0 <= from <= to <= clusters.len(),
        forall|i: int| from <= i < to ==> #[trigger] clusters[i].len() > 0,
    ensures
        span(clusters, from, to).len() >= to - from,
    decreases to - from,
{
    if from == to {
        lemma_span_empty(clusters, from);
    } else {
        lemma_span_holds_clusters(clusters, from, to - 1);
        lemma_span_split(clusters, from, to - 1, to);
        lemma_span_one(clusters, to - 1);
    }
}

/// Cluster `index` of `clusters` begins `offset` characters into their text.
pub open spec fn begins_at(clusters: Seq<Seq<char>>, index: int, offset: int) -> bool {
    &&& 0 <= index < clusters.len()
    &&& span(clusters, 0, index).len() == offset
}

/// `index` is the first cluster of `clusters` that begins at `offset`.
pub open spec fn is_cluster_at(clusters: Seq<Seq<char>>, index: int, offset: int) -> bool {
    &&& begins_at(clusters, index, offset)
    &&& forall|j: int| 0 <= j < index ==> !begins_at(clusters, j, offset)
}

/// The index of the first cluster that begins at `offset`, if one does.
pub open spec fn cluster_at(clusters: Seq<Seq<char>>, offset: int) -> Option<int> {
    if exists|i: int| begins_at(clusters, i, offset) {
        Some(choose|i: int| is_cluster_at(clusters, i, offset))
    } else {
        None
    }
}

/// An index that is the first to begin at `offset` is the cluster at `offset`.
pub proof fn lemma_cluster_at_is(clusters: Seq<Seq<char>>, index: int, offset: int)
    requires
        is_cluster_at(clusters, index, offset),
    ensures
        cluster_at(clusters, offset) == Some(index),
{
}

/// Where a cluster begins at `offset`, one is the first to do so.
pub proof fn lemma_cluster_at_exists(clusters: Seq<Seq<char>>, index: int, offset: int)
    requires
        begins_at(clusters, index, offset),
    ensures
        exists|i: int| 0 <= i <= index && is_cluster_at(clusters, i, offset),
    decreases index,
{
    if exists|j: int| 0 <= j < index && begins_at(clusters, j, offset) {
        let j = choose|j: int| 0 <= j < index && begins_at(clusters, j, offset);
        lemma_cluster_at_exists(clusters, j, offset);
    } else {
        assert(is_cluster_at(clusters, index, offset));
    }
}

/// What `cluster_at` gives is the first cluster that begins at `offset`; it
/// gives nothing only where no cluster begins there.
pub proof fn lemma_cluster_at(clusters: Seq<Seq<char>>, offset: int)
    ensures
        match cluster_at(clusters, offset) {
            Some(index) => is_cluster_at(clusters, index, offset),
            None => forall|i: int| !begins_at(clusters, i, offset),
        },
{
    if exists|i: int| begins_at(clusters, i, offset) {
        let i = choose|i: int| begins_at(clusters, i, offset);
        lemma_cluster_at_exists(clusters, i, offset);
    }
}

/// Where no cluster is empty, a later cluster begins further on.
pub proof fn lemma_later_cluster_begins_later(clusters: Seq<Seq<char>>, first: int, second: int)
    requires
        0 <= first < second <= clusters.len(),
        forall|i: int| 0 <= i < clusters.len() ==> #[trigger] clusters[i].len() > 0,
    ensures
        span(clusters, 0, first).len() < span(clusters, 0, second).len(),
{
    lemma_span_split(clusters, 0, first, second);
    lemma_span_holds_clusters(clusters, first, second);
}

/// A run within a run of clusters: clusters `from..to` of clusters
/// `start..end` are clusters `start + from..start + to` of them all.
pub proof fn lemma_span_of_run(clusters: Seq<Seq<char>>, start: int, end: int, from: int, to: int)
    requires
        0 <= start <= end <= clusters.len(),
        0 <= from <= to <= end - start,
    ensures
        span(clusters.subrange(start, end), from, to) == span(clusters, start + from, start + to),
{
    assert(clusters.subrange(start, end).subrange(from, to) =~= clusters.subrange(
        start + from,
        start + to,
    ));
}

/// Finds the first cluster that begins `offset` characters into the joined
/// text of `clusters`.
pub(crate) fn index_of_offset(clusters: &Vec<String>, offset: usize) -> (found: Option<usize>)
    requires
        clusters.deep_view().flatten().len() <= usize::MAX,
    ensures
        match found {
            Some(index) => cluster_at(clusters.deep_view(), offset as int) == Some(index as int),
            None => cluster_at(clusters.deep_view(), offset as int) is None,
        },
        found matches Some(index) ==> index < clusters.len(),
{
    let ghost all = clusters.deep_view();
    let mut begin: usize = 0;
    let mut index: usize = 0;
    proof {
        lemma_span_empty(all, 0);
    }
    while index < clusters.len()
        invariant
            all == clusters.deep_view(),
            all.flatten().len() <= usize::MAX,
            index <= clusters.len(),
            begin == span(all, 0, index as int).len(),
            forall|j: int| 0 <= j < index ==> !begins_at(all, j, offset as int),
        decreases clusters.len() - index,
    {
        if begin == offset {
            proof {
                lemma_cluster_at_is(all, index as int, offset as int);
            }
            return Some(index);
        }
        proof {
            lemma_span_split(all, 0, index as int, index + 1);
            lemma_span_one(all, index as int);
            lemma_span_split(all, 0, index + 1, all.len() as int);
            lemma_span_all(all);
        }
        begin = begin + clusters[index].as_str().unicode_len();
        index += 1;
    }
    None
}

/// Joins clusters `from..to` into one string.
pub(crate) fn join(clusters: &Vec<String>, from: usize, to: usize) -> (text: String)
    requires
        from <= to <= clusters.len(),
    ensures
        text@ == span(clusters.deep_view(), from as int, to as int),
{
    let mut text = String::new();
    let mut i: usize = from;
    proof {
        lemma_span_empty(clusters.deep_view(), from as int);
    }
    while i < to
        invariant
            from <= i <= to <= clusters.len(),
            text@ == span(clusters.deep_view(), from as int, i as int),
        decreases to - i,
    {
        proof {
            lemma_span_split(clusters.deep_view(), from as int, i as int, i + 1);
            lemma_span_one(clusters.deep_view(), i as int);
        }
        text.append(clusters[i].as_str());
        i += 1;
    }
    text
}

} // verus!
