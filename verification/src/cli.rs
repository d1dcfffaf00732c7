//! Output naming: the corrected file's name is the input's with a fixed
//! marker inserted before the extension.

use vstd::prelude::*;

verus! {

/// The marker inserted before the extension: the bytes of `".fixed."`.
pub open spec fn fixed_marker() -> Seq<u8> {
    seq![46u8, 102u8, 105u8, 120u8, 101u8, 100u8, 46u8]
}

/// Index of the last `.` that separates an extension, or -1: a leading dot
/// alone (a hidden file) does not begin an extension.
pub open spec fn last_dot(s: Seq<u8>) -> int
    decreases s.len(),
{
    if s.len() <= 1 {
        -1
    } else if s[s.len() - 1] == 46 {
        s.len() - 1
    } else {
        last_dot(s.drop_last())
    }
}

/// The derived output name: everything before the final dot, the marker,
/// then the extension; `None` for a name without an extension.
pub open spec fn spec_out_fname(s: Seq<u8>) -> Option<Seq<u8>> {
    if last_dot(s) >= 1 {
        let k = last_dot(s);
        Some(s.take(k) + fixed_marker() + s.skip(k + 1))
    } else {
        None
    }
}

/// Derive the output file name from an input file name (as bytes): insert
/// `.fixed` before the final extension. A name without an extension has no
/// derived output name.
#[verifier::loop_isolation(false)]
pub fn get_out_fname(name: &[u8]) -> (r: Option<Vec<u8>>)
    ensures
        r is Some <==> spec_out_fname(name@) is Some,
        r matches Some(v) ==> Some(v@) == spec_out_fname(name@),
{
    let n: usize = name.len();
    if n < 2 {
        return None;
    }
    let mut k_opt: Option<usize> = None;
    let mut j: usize = 1;
    while j < n
        invariant
            1 <= j <= n,
            match k_opt {
                Some(k) => 1 <= k < j && last_dot(name@.take(j as int)) == k,
                None => last_dot(name@.take(j as int)) == -1,
            },
        decreases n - j,
    {
        proof {
            assert(name@.take(j + 1).drop_last() =~= name@.take(j as int));
        }
        if name[j] == 46 {
            k_opt = Some(j);
        }
        j = j + 1;
    }
    proof {
        assert(name@.take(n as int) =~= name@);
    }
    match k_opt {
        None => None,
        Some(k) => {
            let mut out: Vec<u8> = Vec::new();
            let mut i: usize = 0;
            while i < k
                invariant
                    i <= k < n,
                    n == name@.len(),
                    out@ =~= name@.take(i as int),
                decreases k - i,
            {
                out.push(name[i]);
                proof {
                    assert(out@ =~= name@.take(i + 1));
                }
                i = i + 1;
            }
            out.push(46);
            out.push(102);
            out.push(105);
            out.push(120);
            out.push(101);
            out.push(100);
            out.push(46);
            proof {
                assert(out@ =~= name@.take(k as int) + fixed_marker());
            }
            let mut i: usize = k + 1;
            while i < n
                invariant
                    k + 1 <= i <= n,
                    n == name@.len(),
                    out@ =~= name@.take(k as int) + fixed_marker() + name@.subrange(
                        k + 1,
                        i as int,
                    ),
                decreases n - i,
            {
                out.push(name[i]);
                proof {
                    assert(out@ =~= name@.take(k as int) + fixed_marker() + name@.subrange(
                        k + 1,
                        i + 1,
                    ));
                }
                i = i + 1;
            }
            proof {
                assert(name@.subrange(k + 1, n as int) =~= name@.skip(k + 1));
                assert(out@ =~= name@.take(k as int) + fixed_marker() + name@.skip(k + 1));
            }
            Some(out)
        },
    }
}

} // verus!
