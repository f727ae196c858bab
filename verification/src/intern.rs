//! Interned names.
//!
//! Identifiers and symbols are interned, so that two names are the same value
//! exactly when they are spelled the same. The pool is the one kept by the
//! `internment` crate; this module states what the library relies on.
use internment::Intern;
use vstd::prelude::*;

verus! {

/// `internment::Intern`, a pointer into the pool of interned values. Nothing
/// inside it is visible to the verifier.
#[verifier::external_type_specification]
#[verifier::external_body]
#[verifier::reject_recursive_types(T)]
pub struct ExIntern<T: 'static + ?Sized>(Intern<T>);

/// The characters of the string that an interned name points to.
pub uninterp spec fn interned(name: Intern<String>) -> Seq<char>;

/// `name` is the only interned name with its text: the pool holds each
/// string once, so names that are spelled the same are the same value.
pub open spec fn canonical(name: Intern<String>) -> bool {
    forall|other: Intern<String>| #[trigger] interned(other) == interned(name) ==> other == name
}

/// Interns `text` with `Intern::new`, which looks the string up in the pool,
/// moves it there if it is new, and hands back the pointer to the pooled
/// `String`. The contract claims that the pooled string has the characters
/// of `text`, and that no other pointer into the pool has: `new` hands out
/// the pointer that is in the pool wherever an equal string is there
/// already, and nothing ever leaves the pool.
#[verifier::external_body]
pub(crate) fn intern(text: String) -> (name: Intern<String>)
    ensures
        interned(name) == text@,
        canonical(name),
{
    Intern::new(text)
}

} // verus!
