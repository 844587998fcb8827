use vstd::prelude::*;

verus! {

/// One of the two size classes a stem or a design belongs to.
#[derive(Clone, Copy, Debug, PartialEq, Eq, Structural)]
pub enum Size {
    Small,
    Large,
}

impl Size {
    /// Parses the one-letter size marker.
    pub fn from_marker(marker: char) -> (r: Option<Size>)
        ensures
            r == (if marker == 'S' {
                Some(Size::Small)
            } else if marker == 'L' {
                Some(Size::Large)
            } else {
                None::<Size>
            }),
    {
        if marker == 'S' {
            Some(Size::Small)
        } else if marker == 'L' {
            Some(Size::Large)
        } else {
            None
        }
    }

    /// The one-letter marker this size class is written as.
    pub fn marker(&self) -> (r: char)
        ensures
            r == (if self is Small {
                'S'
            } else {
                'L'
            }),
    {
        match self {
            Size::Small => 'S',
            Size::Large => 'L',
        }
    }
}

/// A pair of values, one per size class.
pub struct SizeMap<T> {
    pub small: T,
    pub large: T,
}

impl<T> SizeMap<T> {
    pub fn new(small: T, large: T) -> (r: Self)
        ensures
            r.small == small,
            r.large == large,
    {
        Self { small, large }
    }

    /// Borrows the value of the given size class for mutation.
    pub fn get_mut(&mut self, size: &Size) -> (r: &mut T)
        ensures
            size is Small ==> *r == old(self).small && final(self).small == *final(r)
                && final(self).large == old(self).large,
            size is Large ==> *r == old(self).large && final(self).large == *final(r)
                && final(self).small == old(self).small,
    {
        match size {
            Size::Small => &mut self.small,
            Size::Large => &mut self.large,
        }
    }
}

} // verus!
