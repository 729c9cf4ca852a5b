use vstd::prelude::*;

verus! {

/// The page number that marks a reference as unset.
pub const NULL_PAGE: i32 = -1;

/// Logical location of a node on disk: the number of the page that holds it.
#[derive(Clone, Copy, Debug, PartialEq, Eq, Structural, Ord, Hash)]
pub struct ItemPtr {
    pub page_no: i32,
}

impl ItemPtr {
    pub fn new(page_no: i32) -> (r: Self)
        ensures
            r.page_no == page_no,
    {
        ItemPtr { page_no }
    }

    /// The reference that points nowhere.
    pub fn null() -> (r: Self)
        ensures
            r.page_no == NULL_PAGE,
    {
        ItemPtr { page_no: NULL_PAGE }
    }

    pub open spec fn spec_is_null(&self) -> bool {
        self.page_no == NULL_PAGE
    }

    #[verifier::when_used_as_spec(spec_is_null)]
    pub fn is_null(&self) -> (r: bool)
        ensures
            r == self.spec_is_null(),
    {
        self.page_no == NULL_PAGE
    }
}

/// References are ordered by page number.
impl PartialOrd for ItemPtr {
    fn partial_cmp(&self, other: &ItemPtr) -> (r: Option<core::cmp::Ordering>)
        ensures
            r == Some(
                if self.page_no < other.page_no {
                    core::cmp::Ordering::Less
                } else if self.page_no == other.page_no {
                    core::cmp::Ordering::Equal
                } else {
                    core::cmp::Ordering::Greater
                },
            ),
    {
        if self.page_no < other.page_no {
            Some(core::cmp::Ordering::Less)
        } else if self.page_no == other.page_no {
            Some(core::cmp::Ordering::Equal)
        } else {
            Some(core::cmp::Ordering::Greater)
        }
    }
}

impl vstd::std_specs::cmp::PartialOrdSpecImpl for ItemPtr {
    open spec fn obeys_partial_cmp_spec() -> bool {
        true
    }

    open spec fn partial_cmp_spec(&self, other: &ItemPtr) -> Option<core::cmp::Ordering> {
        Some(
            if self.page_no < other.page_no {
                core::cmp::Ordering::Less
            } else if self.page_no == other.page_no {
                core::cmp::Ordering::Equal
            } else {
                core::cmp::Ordering::Greater
            },
        )
    }
}

impl Default for ItemPtr {
    fn default() -> (r: Self)
        ensures
            r.page_no == NULL_PAGE,
    {
        ItemPtr { page_no: NULL_PAGE }
    }
}

} // verus!
