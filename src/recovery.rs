//! The decisions of recovery: which files a directory listing holds, and
//! what to do with the write-ahead logs found.

use vstd::prelude::*;

use crate::error::{Error, Result};
use crate::names::{ext_of, parse_file_index, parsed_index, FileKind};

verus! {

/// Whether `s` ascends.
pub open spec fn ascending(s: Seq<usize>) -> bool {
    forall|i: int, j: int| 0 <= i < j < s.len() ==> (#[trigger] s[i]) <= (#[trigger] s[j])
}

/// Inserts `x` into the ascending `v`, keeping it ascending.
fn insert_sorted(v: &mut Vec<usize>, x: usize)
    requires
        ascending(old(v)@),
    ensures
        ascending(final(v)@),
        forall|y: usize| final(v)@.contains(y) <==> old(v)@.contains(y) || y == x,
{
    let mut p: usize = 0;
    while p < v.len() && v[p] <= x
        invariant
            p <= v@.len(),
            v@ == old(v)@,
            ascending(v@),
            forall|j: int| 0 <= j < p ==> v@[j] <= x,
        decreases v@.len() - p,
    {
        p = p + 1;
    }
    let ghost before = v@;
    v.insert(p, x);
    proof {
        assert(v@ =~= before.insert(p as int, x));
        assert forall|i: int, j: int| 0 <= i < j < v@.len() implies (#[trigger] v@[i]) <= (#[trigger] v@[j]) by {
            if j < p {
                assert(v@[i] == before[i] && v@[j] == before[j]);
            } else if j == p {
                assert(v@[i] == before[i]);
            } else if i < p {
                assert(v@[i] == before[i] && v@[j] == before[j - 1]);
                assert(before[j - 1] >= before[p as int]);
            } else if i == p {
                assert(v@[j] == before[j - 1]);
                assert(before[j - 1] >= before[p as int]);
            } else {
                assert(v@[i] == before[i - 1] && v@[j] == before[j - 1]);
            }
        }
        assert forall|y: usize| v@.contains(y) <==> before.contains(y) || y == x by {
            if v@.contains(y) {
                let k = choose|k: int| 0 <= k < v@.len() && v@[k] == y;
                if k < p {
                    assert(before[k] == y);
                } else if k > p {
                    assert(before[k - 1] == y);
                }
            }
            if before.contains(y) {
                let k = choose|k: int| 0 <= k < before.len() && before[k] == y;
                if k < p {
                    assert(v@[k] == y);
                } else {
                    assert(v@[k + 1] == y);
                }
            }
            if y == x {
                assert(v@[p as int] == x);
            }
        }
    }
}

/// The indices of the files among `names` that are named as files of the
/// given kind, in ascending order.
pub fn indices_of_kind(names: &Vec<Vec<u8>>, kind: FileKind) -> (r: Vec<usize>)
    ensures
        ascending(r@),
        forall|x: usize| r@.contains(x) <==> exists|i: int|
            0 <= i < names@.len() && parsed_index(#[trigger] names@[i]@, ext_of(kind)) == Some(x as nat),
{
    let ext = kind.ext();
    let mut r: Vec<usize> = Vec::new();
    let mut i: usize = 0;
    while i < names.len()
        invariant
            i <= names@.len(),
            ext@ == ext_of(kind),
            ascending(r@),
            forall|x: usize| r@.contains(x) <==> exists|j: int|
                0 <= j < i && parsed_index(#[trigger] names@[j]@, ext_of(kind)) == Some(x as nat),
        decreases names@.len() - i,
    {
        let parsed = parse_file_index(names[i].as_slice(), ext.as_slice());
        let ghost before = r@;
        match parsed {
            Some(n) => {
                insert_sorted(&mut r, n);
            },
            None => {},
        }
        proof {
            assert forall|x: usize| r@.contains(x) <==> exists|j: int|
                0 <= j < i + 1 && parsed_index(#[trigger] names@[j]@, ext_of(kind)) == Some(x as nat) by {
                if r@.contains(x) && !before.contains(x) {
                    assert(parsed_index(names@[i as int]@, ext_of(kind)) == Some(x as nat));
                }
                if exists|j: int| 0 <= j < i + 1 && parsed_index(#[trigger] names@[j]@, ext_of(kind)) == Some(x as nat) {
                    let j = choose|j: int| 0 <= j < i + 1 && parsed_index(#[trigger] names@[j]@, ext_of(kind)) == Some(x as nat);
                    if j == i {
                        assert(parsed == Some(x));
                    }
                }
            }
        }
        i = i + 1;
    }
    r
}

/// What recovery does with the write-ahead logs it finds.
#[derive(Debug, Clone, Copy, PartialEq, Eq, Structural)]
pub enum WalPlan {
    /// No log: start one at index 0.
    Fresh,
    /// One log: it is the active memtable's.
    Resume(usize),
    /// Two logs: the older one belongs to a memtable whose flush did not
    /// finish. Flush it into the table of the same index, delete it, and
    /// go on with the newer log.
    FlushThenResume { unflushed: usize, current: usize },
}

/// Decides what to do with the logs of the given ascending indices. More
/// than two logs cannot come from any run of the engine.
pub fn plan_wal(indices: &Vec<usize>) -> (r: Result<WalPlan>)
    ensures
        indices@.len() == 0 ==> r == Ok::<WalPlan, Error>(WalPlan::Fresh),
        indices@.len() == 1 ==> r == Ok::<WalPlan, Error>(WalPlan::Resume(indices@[0])),
        indices@.len() == 2 ==> r == Ok::<WalPlan, Error>(
            WalPlan::FlushThenResume { unflushed: indices@[0], current: indices@[1] },
        ),
        indices@.len() > 2 ==> r == Err::<WalPlan, Error>(Error::Corruption),
{
    match indices.len() {
        0 => Ok(WalPlan::Fresh),
        1 => Ok(WalPlan::Resume(indices[0])),
        2 => Ok(WalPlan::FlushThenResume { unflushed: indices[0], current: indices[1] }),
        _ => Err(Error::Corruption),
    }
}

impl WalPlan {
    /// The index of the log the tree goes on with.
    pub fn current(&self) -> (r: usize)
        ensures
            *self == WalPlan::Fresh ==> r == 0,
            self matches WalPlan::Resume(i) ==> r == i,
            self matches WalPlan::FlushThenResume { current, .. } ==> r == current,
    {
        match self {
            WalPlan::Fresh => 0,
            WalPlan::Resume(i) => *i,
            WalPlan::FlushThenResume { current, .. } => *current,
        }
    }
}

} // verus!
