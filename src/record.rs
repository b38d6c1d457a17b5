use vstd::prelude::*;

use crate::text::chars_of;

verus! {

/// The character that separates a name from its value.
pub const SEPARATOR: char = '=';

/// A name is valid when it does not hold the separator.
pub open spec fn valid_name(name: Seq<char>) -> bool {
    !name.contains(SEPARATOR)
}

/// What went wrong while building a variable or a set of variables.
#[derive(Debug, PartialEq, Eq)]
pub enum EnvEditError {
    /// A variable name holds the separator.
    InvalidName,
    /// The line with this index (counted from 0) holds no separator.
    MalformedLine { line: usize },
}

/// One environment variable: a name without separator, and any value.
pub struct EnvVar {
    name: String,
    value: String,
}

impl View for EnvVar {
    type V = (Seq<char>, Seq<char>);

    closed spec fn view(&self) -> (Seq<char>, Seq<char>) {
        (self.name@, self.value@)
    }
}

impl EnvVar {
    #[verifier::type_invariant]
    spec fn inv(&self) -> bool {
        valid_name(self.name@)
    }

    /// Accepts exactly the names that do not hold the separator.
    pub fn validate_name(name: &str) -> (r: Result<(), EnvEditError>)
        ensures
            r is Ok <==> valid_name(name@),
            r is Err ==> r == Err::<(), EnvEditError>(EnvEditError::InvalidName),
    {
        let cs = chars_of(name);
        let mut i: usize = 0;
        while i < cs.len()
            invariant
                i <= cs.len(),
                cs@ == name@,
                forall|j: int| 0 <= j < i ==> cs@[j] != SEPARATOR,
            decreases cs.len() - i,
        {
            if cs[i] == SEPARATOR {
                return Err(EnvEditError::InvalidName);
            }
            i = i + 1;
        }
        Ok(())
    }

    /// Builds a variable; fails exactly when the name holds the separator.
    pub fn new(name: String, value: String) -> (r: Result<EnvVar, EnvEditError>)
        ensures
            match r {
                Ok(v) => valid_name(name@) && v@ == (name@, value@),
                Err(e) => !valid_name(name@) && e == EnvEditError::InvalidName,
            },
    {
        match EnvVar::validate_name(name.as_str()) {
            Ok(()) => Ok(EnvVar { name, value }),
            Err(e) => Err(e),
        }
    }

    /// The variable's name, which never holds the separator.
    pub fn name(&self) -> (r: &str)
        ensures
            r@ == self@.0,
            valid_name(r@),
    {
        proof {
            use_type_invariant(self);
        }
        self.name.as_str()
    }

    /// The variable's value.
    pub fn value(&self) -> (r: &str)
        ensures
            r@ == self@.1,
    {
        self.value.as_str()
    }
}

} // verus!
