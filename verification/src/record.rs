use vstd::prelude::*;

verus! {

/// Scale of the fixed-point feature values: a stored integer `v` stands
/// for the number `v / FEATURE_SCALE`, keeping four decimal digits.
pub const FEATURE_SCALE: i64 = 10000;

/// Largest magnitude a stored (scaled) feature value may have.
/// Bounding the values lets every squared distance fit in a `u128`.
pub const FEATURE_LIMIT: i64 = 1000000000;

/// One labeled feature vector plus a positional identifier.
///
/// `id` is a stable handle assigned by the loader from the 1-based line
/// number of the source row; the parser leaves it as the placeholder 0.
/// `label` is opaque text; `"?"` is conventionally a placeholder meaning
/// "unknown". `features` holds the fixed-point feature values.
#[derive(Debug)]
pub struct Record {
    pub id: usize,
    pub label: String,
    pub features: Vec<i64>,
}

/// The mathematical model of a `Record`.
pub ghost struct RecordView {
    pub id: int,
    pub label: Seq<char>,
    pub features: Seq<int>,
}

impl View for Record {
    type V = RecordView;

    open spec fn view(&self) -> RecordView {
        RecordView {
            id: self.id as int,
            label: self.label@,
            features: self.features@.map_values(|x: i64| x as int),
        }
    }
}

/// A feature value lies within the bounds the parser enforces.
pub open spec fn feature_in_range(v: int) -> bool {
    -(FEATURE_LIMIT as int) <= v <= FEATURE_LIMIT as int
}

/// All values of a feature sequence are in range.
pub open spec fn wf_features(fs: Seq<int>) -> bool {
    forall|i: int| 0 <= i < fs.len() ==> feature_in_range(#[trigger] fs[i])
}

/// Well-formedness of a record: it has at least one feature, and every
/// feature value is in range. The parser establishes this; all other
/// operations preserve it.
pub open spec fn wf(r: RecordView) -> bool {
    r.features.len() >= 1 && wf_features(r.features)
}

/// The views of a sequence of records.
pub open spec fn views_of(rs: Seq<Record>) -> Seq<RecordView> {
    rs.map_values(|r: Record| r@)
}

impl Record {
    /// Copies the id, the label text and the feature values exactly.
    pub fn duplicate(&self) -> (r: Record)
        ensures
            r@ == self@,
    {
        let mut fs: Vec<i64> = Vec::new();
        let mut i: usize = 0;
        while i < self.features.len()
            invariant
                i <= self.features.len(),
                fs@ == self.features@.take(i as int),
            decreases self.features.len() - i,
        {
            fs.push(self.features[i]);
            proof {
                assert(fs@ =~= self.features@.take(i + 1 as int));
            }
            i += 1;
        }
        proof {
            assert(fs@ =~= self.features@);
        }
        let r = Record { id: self.id, label: self.label.clone(), features: fs };
        proof {
            assert(r@ =~= self@);
        }
        r
    }
}

impl Clone for Record {
    /// A clone is equal to the original, model for model.
    fn clone(&self) -> (r: Self)
        ensures
            r@ == self@,
    {
        self.duplicate()
    }
}

} // verus!
