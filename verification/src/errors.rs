use vstd::prelude::*;

verus! {

/// A profile selector segment did not resolve to a table of the
/// configuration tree.  `segment` is the segment that failed; `consumed`
/// is the partial path that had already been walked successfully.
#[derive(Debug)]
pub struct ProfileNotFoundError {
    pub segment: String,
    pub consumed: Vec<String>,
}

/// The persisted activation-store document exists but cannot be parsed.
#[derive(Debug)]
pub struct StoreCorruptError;

impl ProfileNotFoundError {
    /// Human-readable description of the failed selector lookup.
    pub fn message(&self) -> String {
        let mut m = String::new();
        m.append("profile not found: no table named '");
        m.append(self.segment.as_str());
        m.append("' under '");
        let mut i: usize = 0;
        while i < self.consumed.len()
            decreases self.consumed.len() - i,
        {
            if i > 0 {
                m.append(".");
            }
            m.append(self.consumed[i].as_str());
            i = i + 1;
        }
        m.append("'");
        m
    }
}

impl StoreCorruptError {
    /// Human-readable description of the corrupt store condition.
    pub fn message(&self) -> String {
        let mut m = String::new();
        m.append("activation store is corrupt: the persisted document could not be parsed");
        m
    }
}

} // verus!
