//! Requests that tie memory to a node.

use vstd::prelude::*;

verus! {

pub const MPOL_PREFERRED: usize = 1;

pub const MPOL_BIND: usize = 2;

pub const MPOL_F_STATIC_NODES: usize = 0x8000;

/// Arguments of a request to the kernel that ties a mapping to a node.
#[derive(Clone, Copy, Debug, PartialEq, Eq, Structural)]
pub struct BindRequest {
    pub mode: usize,
    /// One bit for the node.
    pub mask: usize,
    /// Bits of the mask that count.
    pub maxnode: usize,
    pub flags: usize,
}

/// The mask whose only bit is that of a node.
pub open spec fn spec_node_mask_word(node_id: u16) -> usize {
    1usize << (node_id as usize)
}

/// The mask whose only bit is that of a node.
pub fn node_mask_word(node_id: u16) -> (r: usize)
    requires
        node_id < usize::BITS,
    ensures
        r == spec_node_mask_word(node_id),
{
    1usize << (node_id as usize)
}

/// The request for a node, when a mask of one word can name it.
pub open spec fn request_for(node_id: u16, mode: usize) -> Option<BindRequest> {
    if node_id >= usize::BITS {
        None
    } else {
        Some(
            BindRequest {
                mode,
                mask: spec_node_mask_word(node_id),
                maxnode: (node_id + 1) as usize,
                flags: MPOL_F_STATIC_NODES,
            },
        )
    }
}

fn mbind_node(node_id: u16, mode: usize) -> (r: Option<BindRequest>)
    ensures
        r == request_for(node_id, mode),
{
    if node_id as u32 >= usize::BITS {
        return None;
    }
    Some(
        BindRequest {
            mode,
            mask: node_mask_word(node_id),
            maxnode: node_id as usize + 1,
            flags: MPOL_F_STATIC_NODES,
        },
    )
}

/// Asks for pages of the node as long as it has some.
pub fn prefer_node(node_id: u16) -> (r: Option<BindRequest>)
    ensures
        r == request_for(node_id, MPOL_PREFERRED),
{
    mbind_node(node_id, MPOL_PREFERRED)
}

/// Asks for pages of the node and no other.
pub fn bind_node(node_id: u16) -> (r: Option<BindRequest>)
    ensures
        r == request_for(node_id, MPOL_BIND),
{
    mbind_node(node_id, MPOL_BIND)
}

/// The mask of a node names the node and no other.
pub proof fn law_mask_names_one_node(node_id: u16, other: u16)
    requires
        node_id < usize::BITS,
        other < usize::BITS,
    ensures
        (spec_node_mask_word(node_id) >> (other as usize)) & 1 == (if other == node_id {
            1usize
        } else {
            0usize
        }),
{
    let n = node_id as usize;
    let o = other as usize;
    assert(((1usize << n) >> o) & 1 == (if o == n {
        1usize
    } else {
        0usize
    })) by (bit_vector)
        requires
            n < usize::BITS,
            o < usize::BITS,
    ;
}

/// A request covers the node that it is for: the mask has as many bits as are counted, and the
/// node's is the last.
pub proof fn law_request_covers_the_node(node_id: u16, mode: usize)
    ensures
        node_id < usize::BITS <==> request_for(node_id, mode) is Some,
        request_for(node_id, mode) matches Some(r) ==> {
            &&& r.mode == mode
            &&& r.maxnode == node_id + 1
            &&& (r.mask >> (node_id as usize)) & 1 == 1
            &&& r.flags == MPOL_F_STATIC_NODES
        },
{
    if node_id < usize::BITS {
        law_mask_names_one_node(node_id, node_id);
    }
}

} // verus!
