//! How parts of the interface are documented.

use vstd::prelude::*;
use vstd::string::*;

verus! {

/// The note on a part of the interface that is stable since a version, or for an unknown time.
pub fn stable_api_surface(since: &str) -> (r: String)
    ensures
        r@ == (if since@.len() == 0 {
            "Stable api surface"@
        } else {
            "Stable Since "@ + since@
        }),
{
    let mut r = String::new();
    if since.unicode_len() == 0 {
        r.append("Stable api surface");
        assert(r@ =~= "Stable api surface"@);
    } else {
        r.append("Stable Since ");
        r.append(since);
        assert(r@ =~= "Stable Since "@ + since@);
    }
    r
}

/// What a size can be asserted of.
#[derive(Clone, Copy, Debug, PartialEq, Eq, Structural)]
pub enum ItemKind {
    Struct,
    Enum,
    Other,
}

/// The complaint about an assertion on the size of an item that has none.
pub fn assert_sizes(kind: ItemKind) -> (r: Option<&'static str>)
    ensures
        r is Some <==> kind is Other,
        r matches Some(text) ==> text@
            == "`#[assert_size]` can only be used on structs, or enums"@,
{
    match kind {
        ItemKind::Struct => None,
        ItemKind::Enum => None,
        ItemKind::Other => Some("`#[assert_size]` can only be used on structs, or enums"),
    }
}

} // verus!
