use vstd::prelude::*;

verus! {

/// One segment of a path: an exact element, or a wildcard named by a binder.
#[derive(Clone, Copy, Debug, PartialEq, Eq, Structural)]
pub enum KeyPart<E, W> {
    Exact(E),
    Wildcard(W),
}

impl<E, W> KeyPart<E, W> {
    /// Borrows the payload without consuming the key part.
    pub fn as_ref(&self) -> (r: KeyPart<&E, &W>)
        ensures
            match *self {
                KeyPart::Exact(e) => r == KeyPart::<&E, &W>::Exact(&e),
                KeyPart::Wildcard(w) => r == KeyPart::<&E, &W>::Wildcard(&w),
            },
    {
        match self {
            KeyPart::Exact(key) => KeyPart::Exact(key),
            KeyPart::Wildcard(key) => KeyPart::Wildcard(key),
        }
    }

    /// Is the key part a `KeyPart::Wildcard`
    pub fn is_wildcard(&self) -> (r: bool)
        ensures
            r == self is Wildcard,
    {
        matches!(self, KeyPart::Wildcard(_))
    }

    /// Is the key part a `KeyPart::Exact`
    pub fn is_exact(&self) -> (r: bool)
        ensures
            r == self is Exact,
    {
        matches!(self, KeyPart::Exact(_))
    }

    /// The binder of a wildcard; only defined on wildcards.
    pub fn unwrap_wildcard(self) -> (r: W)
        requires
            self is Wildcard,
        ensures
            self == KeyPart::<E, W>::Wildcard(r),
    {
        match self {
            KeyPart::Wildcard(key) => key,
            KeyPart::Exact(_) => vstd::pervasive::unreached(),
        }
    }
}

} // verus!

verus! {

/// The order on key parts: every wildcard sorts before every exact element;
/// within one variant the payloads are compared.
pub open spec fn key_part_lt(a: KeyPart<u64, u64>, b: KeyPart<u64, u64>) -> bool {
    match (a, b) {
        (KeyPart::Exact(x), KeyPart::Exact(y)) => x < y,
        (KeyPart::Wildcard(x), KeyPart::Wildcard(y)) => x < y,
        (KeyPart::Wildcard(_), KeyPart::Exact(_)) => true,
        (KeyPart::Exact(_), KeyPart::Wildcard(_)) => false,
    }
}

impl KeyPart<u64, u64> {
    /// Compares two key parts in the order of `key_part_lt`.
    pub fn compare(&self, other: &Self) -> (r: core::cmp::Ordering)
        ensures
            (r == core::cmp::Ordering::Less) == key_part_lt(*self, *other),
            (r == core::cmp::Ordering::Equal) == (*self == *other),
            (r == core::cmp::Ordering::Greater) == key_part_lt(*other, *self),
    {
        match (self, other) {
            (KeyPart::Exact(x), KeyPart::Exact(y)) => {
                if *x < *y {
                    core::cmp::Ordering::Less
                } else if *x == *y {
                    core::cmp::Ordering::Equal
                } else {
                    core::cmp::Ordering::Greater
                }
            },
            (KeyPart::Wildcard(x), KeyPart::Wildcard(y)) => {
                if *x < *y {
                    core::cmp::Ordering::Less
                } else if *x == *y {
                    core::cmp::Ordering::Equal
                } else {
                    core::cmp::Ordering::Greater
                }
            },
            (KeyPart::Exact(_), KeyPart::Wildcard(_)) => core::cmp::Ordering::Greater,
            (KeyPart::Wildcard(_), KeyPart::Exact(_)) => core::cmp::Ordering::Less,
        }
    }
}

} // verus!
