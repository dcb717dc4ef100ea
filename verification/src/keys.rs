//! Child-root keys.
//!
//! A top key whose bytes begin with the well-known child-storage prefix is
//! a *child root*: the bytes after the prefix name a child namespace.

use vstd::prelude::*;

verus! {

/// The well-known prefix of a child-root top key, `:child_storage:default:`.
pub open spec fn child_prefix() -> Seq<u8> {
    seq![
        58u8, 99u8, 104u8, 105u8, 108u8, 100u8, 95u8, 115u8, 116u8, 111u8, 114u8, 97u8, 103u8,
        101u8, 58u8, 100u8, 101u8, 102u8, 97u8, 117u8, 108u8, 116u8, 58u8,
    ]
}

/// A top key that names a child namespace: it starts with [`child_prefix`].
pub open spec fn is_child_root(k: Seq<u8>) -> bool {
    k.len() >= child_prefix().len() && k.subrange(0, child_prefix().len() as int)
        == child_prefix()
}

/// The namespace id named by a child-root top key: the bytes after the prefix.
pub open spec fn child_id(k: Seq<u8>) -> Seq<u8> {
    k.skip(child_prefix().len() as int)
}

/// The child-storage prefix as a byte vector.
pub fn child_prefix_key() -> (r: Vec<u8>)
    ensures
        r@ == child_prefix(),
{
    let p: [u8; 23] = [
        58u8, 99u8, 104u8, 105u8, 108u8, 100u8, 95u8, 115u8, 116u8, 111u8, 114u8, 97u8, 103u8,
        101u8, 58u8, 100u8, 101u8, 102u8, 97u8, 117u8, 108u8, 116u8, 58u8,
    ];
    let r = vstd::slice::slice_to_vec(p.as_slice());
    proof {
        assert(r@ =~= child_prefix());
    }
    r
}

/// Decide whether a top key is a child root.
pub fn is_child_root_key(k: &Vec<u8>) -> (r: bool)
    ensures
        r == is_child_root(k@),
{
    let p = child_prefix_key();
    if k.len() < p.len() {
        return false;
    }
    let n = p.len();
    let mut i: usize = 0;
    while i < n
        invariant
            n == p@.len(),
            n <= k@.len(),
            p@ == child_prefix(),
            0 <= i <= n,
            forall|j: int| 0 <= j < i ==> k@[j] == p@[j],
        decreases n - i,
    {
        if k[i] != p[i] {
            proof {
                assert(k@.subrange(0, n as int)[i as int] != child_prefix()[i as int]);
            }
            return false;
        }
        i = i + 1;
    }
    proof {
        assert(k@.subrange(0, n as int) =~= child_prefix());
    }
    true
}

/// The namespace id of a child-root top key, or nothing when the key does
/// not carry the child-storage prefix.
pub fn child_io_key(root: &Vec<u8>) -> (r: Option<Vec<u8>>)
    ensures
        match r {
            Some(id) => is_child_root(root@) && id@ == child_id(root@),
            None => !is_child_root(root@),
        },
{
    if is_child_root_key(root) {
        let n = root.len();
        let tail = vstd::slice::slice_subrange(root.as_slice(), 23, n);
        let id = vstd::slice::slice_to_vec(tail);
        proof {
            assert(id@ =~= child_id(root@));
        }
        Some(id)
    } else {
        None
    }
}

} // verus!
