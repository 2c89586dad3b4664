//! Plain identifier types shared by the pattern compiler, the
//! classification driver and the grouper.

use vstd::prelude::*;

verus! {

/// The flattened composite form of a grouping key.
#[derive(Debug, Clone, Hash, PartialEq, Eq, PartialOrd, Ord)]
pub struct GroupKey(pub String);

/// The identifier of one placeholder, used to build a composite grouping key.
#[derive(Debug, Clone, Hash, PartialEq, Eq, PartialOrd, Ord)]
pub struct KeyPart(pub String);

/// The label of one declared pattern among possibly several.
#[derive(Debug, Clone, Hash, PartialEq, Eq)]
pub struct TagName(pub String);

/// Policy choices for a capture that is absent where one is required.
#[derive(Debug, Clone, Copy, PartialEq, Eq)]
pub enum OnMissing {
    Ignore,
    Skip,
    Fail,
}

/// All tag-labeled path lists sharing one composite key.
/// Tags are distinct within one group.
#[derive(Debug)]
pub struct Group {
    pub files: Vec<(TagName, Vec<String>)>,
}

} // verus!
