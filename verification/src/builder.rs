//! The string builder of the `string_builder` crate, as the report of a
//! worker is assembled with it.
use std::string::FromUtf8Error;
use string_builder::Builder;
use vstd::prelude::*;
use vstd::utf8::*;

verus! {

#[verifier::external_type_specification]
#[verifier::external_body]
pub struct ExBuilder(Builder);

#[verifier::external_type_specification]
#[verifier::external_body]
pub struct ExFromUtf8Error(FromUtf8Error);

/// The bytes that a `Builder` has collected so far.
pub uninterp spec fn builder_bytes(b: Builder) -> Seq<u8>;

/// `Builder::default`: a builder that holds no bytes yet (the source makes an
/// empty `Vec` with some capacity).
#[verifier::external_body]
pub(crate) fn builder_new() -> (b: Builder)
    ensures
        builder_bytes(b) == Seq::<u8>::empty(),
{
    Builder::default()
}

/// `Builder::append` with a byte slice: the slice's bytes are added at the end
/// (the source copies them and writes them to its `Vec`, which cannot fail).
#[verifier::external_body]
pub(crate) fn builder_append(b: &mut Builder, bytes: &[u8])
    ensures
        builder_bytes(*final(b)) == builder_bytes(*old(b)) + bytes@,
{
    b.append(bytes)
}

/// `Builder::string`: `String::from_utf8` of the collected bytes. It succeeds
/// exactly when they are valid UTF-8, and then gives the characters they
/// encode.
#[verifier::external_body]
pub(crate) fn builder_string(b: Builder) -> (r: Result<String, FromUtf8Error>)
    ensures
        r is Ok <==> valid_utf8(builder_bytes(b)),
        r matches Ok(s) ==> s@ == decode_utf8(builder_bytes(b)),
{
    b.string()
}

} // verus!
