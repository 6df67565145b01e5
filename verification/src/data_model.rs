use vstd::prelude::*;

verus! {

/// Whether a server entity is a concrete type, as opposed to an interface or a union.
#[derive(Debug, PartialEq, Eq, Clone, Hash, Copy, Ord, PartialOrd, Structural)]
pub struct IsConcrete(pub bool);

/// What a server object selection needs to know of its target.
#[derive(Debug, PartialEq, Eq, Clone, Hash, Copy, PartialOrd, Ord, Structural)]
pub struct ServerObjectSelectionInfo {
    pub is_concrete: IsConcrete,
}

/// Whether a server selectable is selected as an inline fragment.
#[derive(Debug, Clone, PartialEq, Eq, Hash, Copy, PartialOrd, Ord, Structural)]
pub struct IsInlineFragment(pub bool);

impl From<bool> for IsInlineFragment {
    fn from(value: bool) -> (r: IsInlineFragment) {
        IsInlineFragment(value)
    }
}

impl vstd::std_specs::convert::FromSpecImpl<bool> for IsInlineFragment {
    open spec fn obeys_from_spec() -> bool {
        true
    }

    open spec fn from_spec(v: bool) -> IsInlineFragment {
        IsInlineFragment(v)
    }
}

} // verus!
