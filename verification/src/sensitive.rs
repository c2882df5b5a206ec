//! Redaction wrapper for secret configuration values.
use vstd::prelude::*;

verus! {

/// What every rendering of a secret shows.
pub open spec fn redacted() -> Seq<char> {
    "[REDACTED]"@
}

/// Wraps a secret so that its renderings always show `"[REDACTED]"`,
/// while the value stays usable through [`Sensitive::expose`].
///
/// Every intentional read goes through `expose` (or `into_inner`), which
/// makes secret usage easy to audit.
pub struct Sensitive<T> {
    value: T,
}

impl<T> Sensitive<T> {
    /// The wrapped secret.
    pub closed spec fn secret(&self) -> T {
        self.value
    }

    /// Wraps `value` for redacted transport.
    pub fn new(value: T) -> (r: Sensitive<T>)
        ensures
            r.secret() == value,
    {
        Sensitive { value }
    }

    /// Explicit access to the wrapped secret.
    pub fn expose(&self) -> (r: &T)
        ensures
            *r == self.secret(),
    {
        &self.value
    }

    /// Consumes the wrapper, returning the secret.
    pub fn into_inner(self) -> (r: T)
        ensures
            r == self.secret(),
    {
        self.value
    }

    /// The display rendering: always `"[REDACTED]"`, whatever the secret.
    pub fn to_string(&self) -> (r: String)
        ensures
            r@ == redacted(),
    {
        String::from_str("[REDACTED]")
    }

    /// The debug rendering: always `"[REDACTED]"`, whatever the secret.
    pub fn to_debug_string(&self) -> (r: String)
        ensures
            r@ == redacted(),
    {
        String::from_str("[REDACTED]")
    }
}

impl<T> From<T> for Sensitive<T> {
    fn from(value: T) -> (r: Sensitive<T>)
        ensures
            r.secret() == value,
    {
        Sensitive::new(value)
    }
}

impl<T> vstd::std_specs::convert::FromSpecImpl<T> for Sensitive<T> {
    open spec fn obeys_from_spec() -> bool {
        true
    }

    closed spec fn from_spec(v: T) -> Sensitive<T> {
        Sensitive { value: v }
    }
}

/// Reading back what was wrapped gives exactly that value.
pub proof fn wrapped_value_reads_back<T>(v: T)
    ensures
        <Sensitive<T> as vstd::std_specs::convert::FromSpec<T>>::from_spec(v).secret() == v,
{
}

} // verus!
