//! The stages of world setup, in the order in which they run.

use vstd::prelude::*;

verus! {

/// The stages of world setup.
#[derive(Clone, Copy, Debug, PartialEq, Eq, Structural)]
pub enum MyStages {
    PreSetup,
    Islands,
    Homes,
    People,
}

impl MyStages {
    /// The label of the stage.
    pub open spec fn label(self) -> Seq<char> {
        match self {
            MyStages::PreSetup => "pre_setup"@,
            MyStages::Islands => "islands"@,
            MyStages::Homes => "homes"@,
            MyStages::People => "people"@,
        }
    }

    /// The position of the stage in the order of setup.
    pub open spec fn rank(self) -> nat {
        match self {
            MyStages::PreSetup => 0,
            MyStages::Islands => 1,
            MyStages::Homes => 2,
            MyStages::People => 3,
        }
    }

    /// The label under which the stage is registered.
    pub fn to_str(self) -> (label: &'static str)
        ensures
            label@ == self.label(),
    {
        match self {
            MyStages::PreSetup => "pre_setup",
            MyStages::Islands => "islands",
            MyStages::Homes => "homes",
            MyStages::People => "people",
        }
    }

    /// The stage that runs after this one, if any.
    pub fn next(self) -> (after: Option<MyStages>)
        ensures
            after is None <==> self == MyStages::People,
            after matches Some(stage) ==> stage.rank() == self.rank() + 1,
    {
        match self {
            MyStages::PreSetup => Some(MyStages::Islands),
            MyStages::Islands => Some(MyStages::Homes),
            MyStages::Homes => Some(MyStages::People),
            MyStages::People => None,
        }
    }
}

/// No two stages share a label.
pub proof fn law_labels_differ(a: MyStages, b: MyStages)
    requires
        a != b,
    ensures
        a.label() != b.label(),
{
    reveal_strlit("pre_setup");
    reveal_strlit("islands");
    reveal_strlit("homes");
    reveal_strlit("people");
    assert("pre_setup"@.len() == 9);
    assert("islands"@.len() == 7);
    assert("homes"@.len() == 5);
    assert("people"@.len() == 6);
}

} // verus!
