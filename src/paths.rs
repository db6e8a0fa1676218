use vstd::prelude::*;

use crate::bytes::{append_bytes, copy_range};

verus! {

pub const SLASH: u8 = 0x2f;

pub const DOT: u8 = 0x2e;

/// The prefix that marks the temporary copy of a file.
pub const TEMP_MARK: u8 = 0x6e;

/// `k` is the position of the last `b` in `s`, or -1 where `s` holds none.
pub open spec fn is_last(s: Seq<u8>, b: u8, k: int) -> bool {
    &&& -1 <= k < s.len()
    &&& k >= 0 ==> s[k] == b
    &&& forall|j: int| k < j < s.len() ==> s[j] != b
}

/// The path of the temporary file that a rewrite of `path` writes first: the
/// same directory, and the file name with `n` in front. A path whose last
/// component is empty, `.` or `..` names no file and has none.
pub open spec fn temp_path_spec(path: Seq<u8>) -> Option<Seq<u8>> {
    let k = choose|k: int| is_last(path, SLASH, k);
    let name = path.skip(k + 1);
    if name.len() == 0 || name == seq![DOT] || name == seq![DOT, DOT] {
        None
    } else {
        Some(path.take(k + 1) + seq![TEMP_MARK] + name)
    }
}

/// Computes the temporary path beside `path`.
pub fn temp_path(path: &Vec<u8>) -> (r: Option<Vec<u8>>)
    ensures
        r matches Some(t) ==> temp_path_spec(path@) == Some(t@),
        r is None ==> temp_path_spec(path@) is None,
{
    let mut i: usize = path.len();
    while i > 0 && path[i - 1] != SLASH
        invariant
            i <= path.len(),
            forall|j: int| i <= j < path.len() ==> path@[j] != SLASH,
        decreases i,
    {
        i = i - 1;
    }
    let ghost k = i - 1;
    proof {
        let c = choose|c: int| is_last(path@, SLASH, c);
        assert(is_last(path@, SLASH, k));
        if c < k {
            assert(path@[k] == SLASH);
        } else if k < c {
            assert(path@[c] == SLASH);
        }
        assert(c == k);
    }
    let n = path.len() - i;
    let name = copy_range(path, i, path.len());
    assert(name@ =~= path@.skip(k + 1));
    if n == 0 || (n == 1 && path[i] == DOT) || (n == 2 && path[i] == DOT && path[i + 1] == DOT) {
        proof {
            if n == 1 {
                assert(name@ =~= seq![DOT]);
            }
            if n == 2 {
                assert(name@ =~= seq![DOT, DOT]);
            }
        }
        return None;
    }
    proof {
        if name@ == seq![DOT] {
            assert(name@[0] == DOT);
        }
        if name@ == seq![DOT, DOT] {
            assert(name@[0] == DOT && name@[1] == DOT);
        }
    }
    let mut r = copy_range(path, 0, i);
    r.push(TEMP_MARK);
    append_bytes(&mut r, &name);
    assert(r@ =~= path@.take(k + 1) + seq![TEMP_MARK] + name@);
    Some(r)
}

} // verus!
