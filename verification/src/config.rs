//! The configuration a run is made with: the enabled features and the reset
//! switch.

use vstd::prelude::*;

verus! {

/// The features that are switched on, and whether every content line is to be
/// restored to its uncommented form.
#[derive(Debug, Clone)]
pub struct Data {
    /// Names of the enabled features. Order and repetition carry no meaning.
    pub features: Vec<String>,
    /// When set, every content line is uncommented whatever the predicates say.
    pub reset: bool,
}

/// A configuration as contracts see it.
pub ghost struct DataView {
    pub features: Set<Seq<char>>,
    pub reset: bool,
}

impl View for Data {
    type V = DataView;

    open spec fn view(&self) -> DataView {
        DataView {
            features: Set::new(
                |f: Seq<char>|
                    exists|i: int| 0 <= i < self.features@.len() && #[trigger] self.features@[i]@ == f,
            ),
            reset: self.reset,
        }
    }
}

impl Data {
    /// Whether `feature` is one of the enabled features.
    pub fn has_feature(&self, feature: &str) -> (b: bool)
        ensures
            b == self@.features.contains(feature@),
    {
        let wanted = feature.to_owned();
        let mut i: usize = 0;
        while i < self.features.len()
            invariant
                i <= self.features@.len(),
                wanted@ == feature@,
                forall|j: int| 0 <= j < i ==> #[trigger] self.features@[j]@ != feature@,
            decreases self.features@.len() - i,
        {
            if self.features[i] == wanted {
                return true;
            }
            i += 1;
        }
        false
    }
}

} // verus!
