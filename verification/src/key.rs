//! The unified [`Key`] used to address keywords.

use vstd::prelude::*;

verus! {

/// Addresses a keyword either by name (strict: it must be unique) or by a
/// specific occurrence when a name repeats.
///
/// Every keyword accessor takes `impl IntoKey`, so a bare `&str` (or
/// `&String`) and an `(name, n)` tuple both work.
#[derive(Debug, Clone, Copy, PartialEq, Eq)]
pub enum Key<'a> {
    /// Match the sole keyword with this name (ambiguous if it repeats).
    Name(&'a str),
    /// Match the `usize`-th (0-based) occurrence of this name.
    Nth(&'a str, usize),
}

/// The mathematical meaning of a [`Key`]: the addressed name as characters,
/// and the occurrence index for the `Nth` form.
pub enum KeySpec {
    Name(Seq<char>),
    Nth(Seq<char>, nat),
}

impl KeySpec {
    pub open spec fn name(self) -> Seq<char> {
        match self {
            KeySpec::Name(n) => n,
            KeySpec::Nth(n, _) => n,
        }
    }
}

impl<'a> View for Key<'a> {
    type V = KeySpec;

    open spec fn view(&self) -> KeySpec {
        match *self {
            Key::Name(n) => KeySpec::Name(n@),
            Key::Nth(n, i) => KeySpec::Nth(n@, i as nat),
        }
    }
}

impl<'a> Key<'a> {
    /// The keyword name this key addresses.
    pub fn name(&self) -> (r: &'a str)
        ensures
            r@ == self@.name(),
    {
        match *self {
            Key::Name(n) => n,
            Key::Nth(n, _) => n,
        }
    }
}

/// Conversion into a [`Key`]: a bare name addresses the unique keyword with
/// that name, a `(name, n)` pair its `n`-th occurrence.
pub trait IntoKey<'a> {
    spec fn key_spec(&self) -> KeySpec;

    fn into_key(self) -> (k: Key<'a>)
        ensures
            k@ == self.key_spec(),
    ;
}

impl<'a> IntoKey<'a> for Key<'a> {
    open spec fn key_spec(&self) -> KeySpec {
        self@
    }

    fn into_key(self) -> (k: Key<'a>) {
        self
    }
}

impl<'a> IntoKey<'a> for &'a str {
    open spec fn key_spec(&self) -> KeySpec {
        KeySpec::Name(self@)
    }

    fn into_key(self) -> (k: Key<'a>) {
        Key::Name(self)
    }
}

impl<'a> IntoKey<'a> for &'a String {
    open spec fn key_spec(&self) -> KeySpec {
        KeySpec::Name(self@)
    }

    fn into_key(self) -> (k: Key<'a>) {
        Key::Name(self.as_str())
    }
}

impl<'a> IntoKey<'a> for (&'a str, usize) {
    open spec fn key_spec(&self) -> KeySpec {
        KeySpec::Nth(self.0@, self.1 as nat)
    }

    fn into_key(self) -> (k: Key<'a>) {
        Key::Nth(self.0, self.1)
    }
}

} // verus!
