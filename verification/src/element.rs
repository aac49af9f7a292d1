use vstd::prelude::*;

verus! {

/// A value a replicated set or register can hold.
///
/// The merge rules have to compare stored values and hand out copies of
/// them; both have to agree with the value's abstract form (`DeepView`),
/// which is the form every contract in this crate speaks about.
pub trait Element: DeepView + Sized {
    /// Decides whether the two values have the same abstract form.
    fn eq_elem(&self, other: &Self) -> (r: bool)
        ensures
            r <==> self.deep_view() == other.deep_view(),
    ;

    /// Hands out a copy with the same abstract form.
    fn clone_elem(&self) -> (r: Self)
        ensures
            r.deep_view() == self.deep_view(),
    ;
}

impl Element for u64 {
    fn eq_elem(&self, other: &Self) -> (r: bool)
        ensures
            r <==> self.deep_view() == other.deep_view(),
    {
        *self == *other
    }

    fn clone_elem(&self) -> (r: Self)
        ensures
            r.deep_view() == self.deep_view(),
    {
        *self
    }
}

impl Element for String {
    fn eq_elem(&self, other: &Self) -> (r: bool)
        ensures
            r <==> self.deep_view() == other.deep_view(),
    {
        *self == *other
    }

    fn clone_elem(&self) -> (r: Self)
        ensures
            r.deep_view() == self.deep_view(),
    {
        self.clone()
    }
}

} // verus!
