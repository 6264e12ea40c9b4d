use vstd::prelude::*;
use crate::record::{Record, RecordView, wf, views_of};
use crate::select::{
    select_k_nearest, selected_views, dims_match, dist_pairs, lemma_select_pairs_len,
    SelectionError,
};

verus! {

/// Why a classification failed.
#[derive(Debug, Clone, Copy, PartialEq, Eq, Structural)]
pub enum ClassificationError {
    /// The neighbour set is empty: `k` is zero or exceeds the size of
    /// the training set.
    NoNeighbors,
    /// The query's dimensionality differs from some training record's.
    DimensionMismatch,
}

/// The labels of a sequence of records, in order.
pub open spec fn labels_of(rs: Seq<RecordView>) -> Seq<Seq<char>> {
    rs.map_values(|r: RecordView| r.label)
}

/// How often `l` occurs in `labels`.
pub open spec fn count_label(labels: Seq<Seq<char>>, l: Seq<char>) -> nat
    decreases labels.len(),
{
    if labels.len() == 0 {
        0
    } else {
        count_label(labels.drop_last(), l) + if labels.last() == l {
            1nat
        } else {
            0nat
        }
    }
}

/// Position of the greatest value; on ties, the earliest position wins.
pub open spec fn argmax(s: Seq<nat>) -> int
    recommends
        s.len() > 0,
    decreases s.len(),
{
    if s.len() <= 1 {
        0
    } else {
        let r = 1 + argmax(s.drop_first());
        if s[0] >= s[r] {
            0
        } else {
            r
        }
    }
}

/// `argmax` is in range, no value is greater, and every earlier value
/// is strictly smaller (first-encountered wins).
pub proof fn lemma_argmax_props(s: Seq<nat>)
    requires
        s.len() > 0,
    ensures
        0 <= argmax(s) < s.len(),
        forall|j: int| 0 <= j < s.len() ==> #[trigger] s[j] <= s[argmax(s)],
        forall|j: int| 0 <= j < argmax(s) ==> #[trigger] s[j] < s[argmax(s)],
    decreases s.len(),
{
    if s.len() <= 1 {
    } else {
        let rest = s.drop_first();
        lemma_argmax_props(rest);
        let m = argmax(s);
        assert forall|j: int| 0 <= j < s.len() implies #[trigger] s[j] <= s[m] by {
            if j >= 1 {
                assert(s[j] == rest[j - 1]);
                assert(rest[j - 1] <= rest[argmax(rest)]);
            }
        }
        assert forall|j: int| 0 <= j < m implies #[trigger] s[j] < s[m] by {
            if j >= 1 {
                assert(s[j] == rest[j - 1]);
                assert(rest[j - 1] < rest[argmax(rest)]);
            }
        }
    }
}

/// For each position, how often the label at that position occurs in
/// the whole sequence.
pub open spec fn label_counts(labels: Seq<Seq<char>>) -> Seq<nat> {
    Seq::new(labels.len(), |i: int| count_label(labels, labels[i]))
}

/// The winning label of a majority vote: the one with the strictly
/// highest count; on equal top counts, the label tallied first wins
/// (the one carried by the nearer neighbour; at equal distance, by the
/// neighbour earlier in pool order).
pub open spec fn majority_label(labels: Seq<Seq<char>>) -> Seq<char>
    recommends
        labels.len() > 0,
{
    labels[argmax(label_counts(labels))]
}

/// The labels of the `k` nearest training records, nearest first.
pub open spec fn neighbor_labels(q: RecordView, train: Seq<RecordView>, k: nat) -> Seq<Seq<char>> {
    labels_of(selected_views(q, train, k))
}

/// A classification succeeds exactly when every training record has the
/// query's dimensionality and `k` is positive and within the training
/// set's size.
pub open spec fn classify_ok(q: RecordView, train: Seq<RecordView>, k: nat) -> bool {
    dims_match(q, train) && 0 < k <= train.len()
}

/// The label a successful classification assigns.
pub open spec fn classified_label(q: RecordView, train: Seq<RecordView>, k: nat) -> Seq<char> {
    majority_label(neighbor_labels(q, train, k))
}

/// How often the label of `l` occurs among the labels of `recs`.
fn count_label_in(recs: &Vec<Record>, l: &String) -> (c: usize)
    ensures
        c == count_label(labels_of(views_of(recs@)), l@),
{
    let ghost nl = labels_of(views_of(recs@));
    let n = recs.len();
    let mut c: usize = 0;
    let mut j: usize = 0;
    while j < n
        invariant
            j <= n,
            n == recs@.len(),
            nl == labels_of(views_of(recs@)),
            c <= j,
            c == count_label(nl.take(j as int), l@),
        decreases n - j,
    {
        proof {
            assert(views_of(recs@)[j as int] == recs@[j as int]@);
            assert(nl[j as int] == recs@[j as int]@.label);
            let t = nl.take(j + 1 as int);
            assert(t.drop_last() =~= nl.take(j as int));
            assert(t.last() == nl[j as int]);
        }
        if recs[j].label.eq(l) {
            c += 1;
        }
        j += 1;
    }
    proof {
        assert(nl.take(n as int) =~= nl);
    }
    c
}

/// Assigns a label to `query` by majority vote among its `k` nearest
/// records in `training`.
///
/// The vote is tallied over the `k` nearest records, nearest first; the
/// label with the strictly highest count wins, and on equal top counts
/// the label tallied first wins. The query itself is not changed; the
/// result never depends on the query's own label, only on its features.
///
/// Fails with `DimensionMismatch` when any training record's
/// dimensionality differs from the query's, and otherwise with
/// `NoNeighbors` when the neighbour set would be empty (`k` is zero) or
/// the training set holds fewer than `k` records; it never returns a
/// guessed label in those cases.
pub fn classify(query: &Record, training: &Vec<Record>, k: usize) -> (r: Result<
    String,
    ClassificationError,
>)
    requires
        wf(query@),
        forall|i: int| 0 <= i < training@.len() ==> wf((#[trigger] training@[i])@),
    ensures
        !dims_match(query@, views_of(training@)) ==> r == Err::<String, ClassificationError>(
            ClassificationError::DimensionMismatch,
        ),
        dims_match(query@, views_of(training@)) && (k == 0 || training@.len() < k) ==> r == Err::<
            String,
            ClassificationError,
        >(ClassificationError::NoNeighbors),
        classify_ok(query@, views_of(training@), k as nat) ==> (r matches Ok(l) && l@
            == classified_label(query@, views_of(training@), k as nat)),
{
    let neighbors = match select_k_nearest(query, training, k) {
        Err(SelectionError::DimensionMismatch) => {
            return Err(ClassificationError::DimensionMismatch);
        },
        Err(SelectionError::InsufficientCandidates) => {
            return Err(ClassificationError::NoNeighbors);
        },
        Ok(neighbors) => neighbors,
    };
    let n = neighbors.len();
    proof {
        if classify_ok(query@, views_of(training@), k as nat) {
            let trv = views_of(training@);
            lemma_select_pairs_len(dist_pairs(query@.features, trv), k as nat);
            assert(dist_pairs(query@.features, trv).len() == trv.len());
            assert(selected_views(query@, trv, k as nat).len() == k as int);
            assert(views_of(neighbors@).len() == neighbors@.len());
            assert(neighbors@.len() == k as int);
        }
    }
    if n == 0 {
        return Err(ClassificationError::NoNeighbors);
    }
    let ghost nl = labels_of(views_of(neighbors@));
    let ghost counts = label_counts(nl);
    proof {
        assert(nl == neighbor_labels(query@, views_of(training@), k as nat));
    }
    let mut best: usize = 0;
    let mut bestc: usize = count_label_in(&neighbors, &neighbors[0].label);
    proof {
        assert(views_of(neighbors@)[0] == neighbors@[0]@);
        assert(neighbors@[0]@.label == nl[0]);
        assert(counts[0] == count_label(nl, nl[0]));
    }
    let mut i: usize = 1;
    while i < n
        invariant
            1 <= i <= n,
            n == neighbors@.len(),
            nl == labels_of(views_of(neighbors@)),
            counts == label_counts(nl),
            (best as int) < i,
            bestc == counts[best as int],
            forall|t: int| 0 <= t < i ==> #[trigger] counts[t] <= counts[best as int],
            forall|t: int| 0 <= t < best ==> #[trigger] counts[t] < counts[best as int],
        decreases n - i,
    {
        proof {
            assert(views_of(neighbors@)[i as int] == neighbors@[i as int]@);
            assert(neighbors@[i as int]@.label == nl[i as int]);
            assert(counts[i as int] == count_label(nl, nl[i as int]));
        }
        let c = count_label_in(&neighbors, &neighbors[i].label);
        if c > bestc {
            best = i;
            bestc = c;
        }
        i += 1;
    }
    proof {
        lemma_argmax_props(counts);
        assert(best as int == argmax(counts));
        assert(views_of(neighbors@)[best as int] == neighbors@[best as int]@);
        assert(neighbors@[best as int]@.label == nl[best as int]);
    }
    Ok(neighbors[best].label.clone())
}

/// Whether the classifier reproduces a test record's own label.
pub open spec fn correct_at(t: RecordView, train: Seq<RecordView>, k: nat) -> bool {
    classify_ok(t, train, k) && classified_label(t, train, k) == t.label
}

/// How many records of a test set the classifier labels correctly.
pub open spec fn count_correct(test: Seq<RecordView>, train: Seq<RecordView>, k: nat) -> nat
    decreases test.len(),
{
    if test.len() == 0 {
        0
    } else {
        count_correct(test.drop_last(), train, k) + if correct_at(test.last(), train, k) {
            1nat
        } else {
            0nat
        }
    }
}

/// Classifies every record of `test` against `training` and reports
/// `(correct, total)`: how many classifications returned the record's
/// own label, and how many records were tried.
///
/// A record on which classification fails counts as incorrect. The
/// classifier's contract shows the result depends only on a query's
/// features, never on its label, so the original labels can be left in
/// place while testing.
pub fn evaluate(test: &Vec<Record>, training: &Vec<Record>, k: usize) -> (r: (usize, usize))
    requires
        forall|i: int| 0 <= i < test@.len() ==> wf((#[trigger] test@[i])@),
        forall|i: int| 0 <= i < training@.len() ==> wf((#[trigger] training@[i])@),
    ensures
        r.1 == test@.len(),
        r.0 == count_correct(views_of(test@), views_of(training@), k as nat),
        r.0 <= r.1,
{
    let ghost tv = views_of(test@);
    let ghost trv = views_of(training@);
    let total = test.len();
    let mut correct: usize = 0;
    let mut i: usize = 0;
    while i < total
        invariant
            i <= total,
            total == test@.len(),
            tv == views_of(test@),
            trv == views_of(training@),
            forall|j: int| 0 <= j < test@.len() ==> wf((#[trigger] test@[j])@),
            forall|j: int| 0 <= j < training@.len() ==> wf((#[trigger] training@[j])@),
            correct <= i,
            correct == count_correct(tv.take(i as int), trv, k as nat),
        decreases total - i,
    {
        proof {
            assert(tv[i as int] == test@[i as int]@);
            let t = tv.take(i + 1 as int);
            assert(t.drop_last() =~= tv.take(i as int));
            assert(t.last() == tv[i as int]);
        }
        match classify(&test[i], training, k) {
            Ok(l) => {
                if l.eq(&test[i].label) {
                    correct += 1;
                }
            },
            Err(_) => {},
        }
        i += 1;
    }
    proof {
        assert(tv.take(total as int) =~= tv);
    }
    (correct, total)
}

} // verus!
