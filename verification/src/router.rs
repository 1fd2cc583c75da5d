//! Route matching for a hash-based navigation router.
//!
//! The router holds an ordered list of path/render pairs and a container.
//! On activation it renders the route whose path equals the current
//! location hash exactly, falling back to the first route when none
//! matches. The matching decision lives here; driving the host tree is the
//! caller's part.

use vstd::prelude::*;

verus! {

/// The position of the first path equal to `hash`, at or after `i`.
pub open spec fn spec_first_match(paths: Seq<Seq<u8>>, hash: Seq<u8>, i: nat) -> Option<nat>
    decreases paths.len() - i,
{
    if i >= paths.len() {
        None
    } else if paths[i as int] == hash {
        Some(i)
    } else {
        spec_first_match(paths, hash, i + 1)
    }
}

/// The route activated for `hash`: the first whose path equals it exactly;
/// the first route of all where none matches; none where no routes exist.
pub open spec fn spec_route_index(paths: Seq<Seq<u8>>, hash: Seq<u8>) -> Option<nat> {
    match spec_first_match(paths, hash, 0) {
        Some(i) => Some(i),
        None => if paths.len() > 0 {
            Some(0)
        } else {
            None
        },
    }
}

/// The path used when the location carries none: `#/`.
pub open spec fn default_hash() -> Seq<u8> {
    seq![35u8, 47u8]
}

/// An empty location hash stands for the root path `#/`; any other is kept
/// as it is.
pub fn normalize_hash(hash: &[u8]) -> (r: Vec<u8>)
    ensures
        r@ == (if hash@.len() == 0 {
            default_hash()
        } else {
            hash@
        }),
{
    if hash.len() == 0 {
        let mut v: Vec<u8> = Vec::new();
        v.push(35);
        v.push(47);
        proof {
            assert(v@ =~= default_hash());
        }
        v
    } else {
        let r = crate::bytes::copy_range(hash, 0, hash.len());
        proof {
            assert(hash@.subrange(0, hash@.len() as int) =~= hash@);
        }
        r
    }
}

/// Picks the route to activate for `hash`: exactly `spec_route_index`.
pub fn route_index(paths: &Vec<Vec<u8>>, hash: &[u8]) -> (r: Option<usize>)
    ensures
        ({
            let sr = spec_route_index(paths.deep_view(), hash@);
            match r {
                Some(i) => sr == Some(i as nat) && i < paths@.len(),
                None => sr is None && paths@.len() == 0,
            }
        }),
{
    let ghost dv = paths.deep_view();
    let mut i: usize = 0;
    while i < paths.len()
        invariant
            i <= paths@.len(),
            dv == paths.deep_view(),
            spec_first_match(dv, hash@, 0) == spec_first_match(dv, hash@, i as nat),
        decreases paths@.len() - i,
    {
        proof {
            assert(dv[i as int] == paths@[i as int].deep_view());
            assert(paths@[i as int].deep_view() =~= paths@[i as int]@);
        }
        if crate::bytes::bytes_eq(paths[i].as_slice(), hash) {
            proof {
                assert(spec_first_match(dv, hash@, i as nat) == Some(i as nat));
            }
            return Some(i);
        }
        i += 1;
    }
    proof {
        assert(spec_first_match(dv, hash@, paths@.len() as nat) is None);
    }
    if paths.len() > 0 {
        Some(0)
    } else {
        None
    }
}

} // verus!
