//! The package record type and its multi-term matching predicate.

use crate::text::contains_sub;
use crate::text::is_substring;
use vstd::prelude::*;

verus! {

/// One package entry: a name, the highest known version, and a description.
pub struct Crate {
    pub name: String,
    pub version: String,
    pub description: String,
}

/// The mathematical value of a [`Crate`]: its three fields as character
/// sequences.
pub ghost struct CrateView {
    pub name: Seq<char>,
    pub version: Seq<char>,
    pub description: Seq<char>,
}

impl View for Crate {
    type V = CrateView;

    open spec fn view(&self) -> CrateView {
        CrateView { name: self.name@, version: self.version@, description: self.description@ }
    }
}

impl Clone for Crate {
    fn clone(&self) -> (r: Self)
        ensures
            r@ == self@,
    {
        Crate {
            name: self.name.clone(),
            version: self.version.clone(),
            description: self.description.clone(),
        }
    }
}

/// Every needle is a substring of the record's name or of its description.
/// The conjunction over an empty needle sequence is true.
pub open spec fn crate_matches(c: CrateView, needles: Seq<Seq<char>>) -> bool {
    forall|i: int|
        0 <= i < needles.len() ==> is_substring(#[trigger] needles[i], c.name) || is_substring(
            needles[i],
            c.description,
        )
}

impl Crate {
    /// Does every needle, taken as given, occur in this record's name or
    /// description?
    pub fn contains(&self, needles: &[String]) -> (r: bool)
        ensures
            r == crate_matches(self@, needles@.map_values(|s: String| s@)),
    {
        let ghost nv = needles@.map_values(|s: String| s@);
        let n = needles.len();
        let mut i: usize = 0;
        while i < n
            invariant
                n == needles@.len(),
                nv == needles@.map_values(|s: String| s@),
                0 <= i <= n,
                forall|j: int|
                    0 <= j < i ==> is_substring(#[trigger] nv[j], self.name@) || is_substring(
                        nv[j],
                        self.description@,
                    ),
            decreases n - i,
        {
            let needle = needles[i].as_str();
            let hit = contains_sub(self.name.as_str(), needle) || contains_sub(
                self.description.as_str(),
                needle,
            );
            if !hit {
                proof {
                    assert(nv[i as int] == needles@[i as int]@);
                    assert(!(is_substring(nv[i as int], self.name@) || is_substring(
                        nv[i as int],
                        self.description@,
                    )));
                }
                return false;
            }
            i = i + 1;
        }
        true
    }
}

} // verus!
