//! Namespaced identifiers for game content.
//!
//! An identifier names a material, texture or other loadable object as
//! `namespace:name`, for example `base:stone`. The codec treats the rendered
//! text as an opaque string; this type only owns the two halves and their
//! joined form.

use vstd::prelude::*;
use vstd::string::StringExecFns;

verus! {

/// An identifier is a structure used to identify objects in game like
/// entities, textures, shaders and everything else.
#[derive(Debug, Clone, PartialEq)]
pub struct Identifier {
    /// The identifier namespace e.g. in `base:world` the namespace is `base`.
    namespace: String,
    /// The identifier name e.g. in `base:world` the name is `world`.
    name: String,
}

impl Identifier {
    /// The rendered text of the identifier: namespace, colon, name.
    pub closed spec fn text(&self) -> Seq<char> {
        self.namespace@ + seq![':'] + self.name@
    }

    pub fn new(namespace: &str, name: &str) -> (r: Identifier)
        ensures
            r.text() == namespace@ + seq![':'] + name@,
    {
        Identifier { namespace: String::from_str(namespace), name: String::from_str(name) }
    }

    /// The identifier joined into a single `namespace:name` string.
    pub fn to_string(&self) -> (r: String)
        ensures
            r@ == self.text(),
    {
        let mut r: String = self.namespace.clone();
        r.append(":");
        r.append(self.name.as_str());
        proof {
            reveal_strlit(":");
            assert(":"@ =~= seq![':']);
            assert(r@ =~= self.text());
        }
        r
    }
}

} // verus!
