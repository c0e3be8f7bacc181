//! The base DSL: it only knows how to name entities.
use vstd::prelude::*;
use vstd::string::{StringExecFns, StringSliceAdditionalSpecFns};

use crate::grammar::bytes_eq;
use crate::parse_dsl::{utf8_lossy, Arguments, DslParseError};

verus! {

/// The base DSL bundle, that can give a name to entities.
pub struct BaseDsl {
    /// The name to give to the entity.
    pub name: Option<String>,
}

/// `named`
pub open spec fn named_method() -> Seq<u8> {
    seq![0x6eu8, 0x61u8, 0x6du8, 0x65u8, 0x64u8]
}

impl BaseDsl {
    /// No name yet.
    pub fn new() -> (r: Self)
        ensures
            r.name is None,
    {
        BaseDsl { name: None }
    }

    /// Give the name `name` to the entity.
    pub fn named(&mut self, name: String)
        ensures
            final(self).name == Some(name),
    {
        self.name = Some(name);
    }

    /// Apply the method `name` with `arguments`: only `named` exists, it
    /// names the entity with its first argument (invalid UTF-8 replaced).
    pub fn method(&mut self, name: &str, arguments: &Arguments) -> (r: Result<(), DslParseError>)
        requires
            arguments.wf(),
            name.spec_bytes() == named_method() ==> arguments.texts().len() > 0,
        ensures
            name.spec_bytes() == named_method() ==> r is Ok && (final(self).name matches Some(n)
                && n@ == utf8_lossy(arguments.texts()[0])),
            name.spec_bytes() != named_method() ==> (r matches Err(e) && e.method()@ == name@)
                && final(self).name == old(self).name,
    {
        let expected: [u8; 5] = [0x6e, 0x61, 0x6d, 0x65, 0x64];
        if bytes_eq(name.as_bytes(), &expected) {
            assert(expected@ =~= named_method());
            let text = match arguments.get_str(0) {
                Some(text) => text,
                None => {
                    proof {
                        assert(false);
                    }
                    return Ok(());
                },
            };
            let owned = match text {
                std::borrow::Cow::Borrowed(b) => String::from_str(b),
                std::borrow::Cow::Owned(o) => o,
            };
            self.named(owned);
            Ok(())
        } else {
            assert(expected@ =~= named_method());
            Err(DslParseError::new(name))
        }
    }
}

} // verus!
