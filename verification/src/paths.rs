//! Canonical partition locations.
//!
//! A partition's persisted runs are located through an absolute,
//! lexically normalized path, so that reopening the same logical
//! partition does not depend on the process's current working directory:
//! an absolute path resolves the same way under every working directory,
//! and a relative one is anchored to the directory it is resolved
//! against. Normalization splits on `/`, drops empty and `.` components,
//! and lets `..` step up (stopping at the root).

use vstd::prelude::*;

use crate::record::bytes_view;
use crate::record::clone_bytes;

verus! {

/// Whether the path is absolute: it starts with a `/` byte.
pub open spec fn is_abs(p: Seq<u8>) -> bool {
    p.len() > 0 && p[0] == 47u8
}

/// The path split at every `/` byte; a path always has at least one
/// (possibly empty) component.
pub open spec fn split_comps(p: Seq<u8>) -> Seq<Seq<u8>>
    decreases p.len(),
{
    if p.len() == 0 {
        seq![Seq::<u8>::empty()]
    } else if p.last() == 47u8 {
        split_comps(p.drop_last()).push(Seq::<u8>::empty())
    } else {
        let s = split_comps(p.drop_last());
        s.update(s.len() - 1, s.last().push(p.last()))
    }
}

/// Splitting never yields an empty component list.
pub proof fn lemma_split_comps_nonempty(p: Seq<u8>)
    ensures
        split_comps(p).len() >= 1,
    decreases p.len(),
{
    if p.len() > 0 {
        lemma_split_comps_nonempty(p.drop_last());
    }
}

/// The component stack after lexical normalization: empty components and
/// `.` vanish, `..` pops the previous component (staying at the root when
/// there is none), anything else is kept.
pub open spec fn norm(comps: Seq<Seq<u8>>) -> Seq<Seq<u8>>
    decreases comps.len(),
{
    if comps.len() == 0 {
        Seq::<Seq<u8>>::empty()
    } else {
        let prev = norm(comps.drop_last());
        let c = comps.last();
        if c.len() == 0 || c == seq![46u8] {
            prev
        } else if c == seq![46u8, 46u8] {
            if prev.len() > 0 {
                prev.drop_last()
            } else {
                prev
            }
        } else {
            prev.push(c)
        }
    }
}

/// The components joined with a leading `/` before each.
pub open spec fn join_parts(comps: Seq<Seq<u8>>) -> Seq<u8>
    decreases comps.len(),
{
    if comps.len() == 0 {
        Seq::<u8>::empty()
    } else {
        join_parts(comps.drop_last()) + seq![47u8] + comps.last()
    }
}

/// The absolute path written for a normalized component stack: `/` alone
/// for the root, the `/`-joined components otherwise.
pub open spec fn join_abs(comps: Seq<Seq<u8>>) -> Seq<u8> {
    if comps.len() == 0 {
        seq![47u8]
    } else {
        join_parts(comps)
    }
}

/// The canonical absolute form of `p` resolved under the working
/// directory `cwd`: an absolute `p` ignores `cwd` entirely, a relative
/// one is appended to it; either way the components are normalized.
pub open spec fn resolve(cwd: Seq<u8>, p: Seq<u8>) -> Seq<u8> {
    if is_abs(p) {
        join_abs(norm(split_comps(p)))
    } else {
        join_abs(norm(split_comps(cwd) + split_comps(p)))
    }
}

/// An absolute path resolves the same under every working directory, so
/// opening a partition by an absolute, canonicalized path is independent
/// of where the process currently stands.
pub proof fn lemma_resolve_absolute_ignores_cwd(cwd1: Seq<u8>, cwd2: Seq<u8>, p: Seq<u8>)
    requires
        is_abs(p),
    ensures
        resolve(cwd1, p) == resolve(cwd2, p),
{
}

fn split_exec(p: &[u8]) -> (comps: Vec<Vec<u8>>)
    ensures
        bytes_view(comps@) == split_comps(p@),
{
    let mut comps: Vec<Vec<u8>> = Vec::new();
    let mut cur: Vec<u8> = Vec::new();
    let mut i: usize = 0;
    proof {
        assert(p@.take(0) =~= Seq::<u8>::empty());
        assert(bytes_view(comps@).push(cur@) =~~= split_comps(p@.take(0)));
    }
    while i < p.len()
        invariant
            i <= p@.len(),
            bytes_view(comps@).push(cur@) == split_comps(p@.take(i as int)),
        decreases p@.len() - i,
    {
        let ghost pre = split_comps(p@.take(i as int));
        proof {
            assert(p@.take(i + 1).drop_last() =~= p@.take(i as int));
            assert(p@.take(i + 1).last() == p@[i as int]);
        }
        if p[i] == 47u8 {
            comps.push(cur);
            cur = Vec::new();
            proof {
                assert(bytes_view(comps@).push(cur@) =~~= pre.push(Seq::<u8>::empty()));
            }
        } else {
            let b = p[i];
            cur.push(b);
            proof {
                assert(bytes_view(comps@).push(cur@) =~~= pre.update(
                    pre.len() - 1,
                    pre.last().push(b),
                ));
            }
        }
        i += 1;
    }
    proof {
        assert(p@.take(p@.len() as int) =~= p@);
    }
    comps.push(cur);
    comps
}

fn norm_exec(comps: &Vec<Vec<u8>>) -> (stack: Vec<Vec<u8>>)
    ensures
        bytes_view(stack@) == norm(bytes_view(comps@)),
{
    let mut stack: Vec<Vec<u8>> = Vec::new();
    let mut i: usize = 0;
    proof {
        assert(bytes_view(comps@).take(0) =~~= Seq::<Seq<u8>>::empty());
        assert(bytes_view(stack@) =~~= norm(bytes_view(comps@).take(0)));
    }
    while i < comps.len()
        invariant
            i <= comps@.len(),
            bytes_view(stack@) == norm(bytes_view(comps@).take(i as int)),
        decreases comps@.len() - i,
    {
        let ghost pre = norm(bytes_view(comps@).take(i as int));
        proof {
            assert(bytes_view(comps@).take(i + 1).drop_last() =~~= bytes_view(comps@).take(
                i as int,
            ));
            assert(bytes_view(comps@).take(i + 1).last() == comps@[i as int]@);
        }
        let c = &comps[i];
        if c.len() == 0 {
            // empty component: a doubled or trailing slash, dropped
        } else if c.len() == 1 && c[0] == 46u8 {
            proof {
                assert(c@ =~= seq![46u8]);
            }
        } else if c.len() == 2 && c[0] == 46u8 && c[1] == 46u8 {
            proof {
                assert(c@ =~= seq![46u8, 46u8]);
            }
            if stack.len() > 0 {
                stack.pop();
                proof {
                    assert(bytes_view(stack@) =~~= pre.drop_last());
                }
            }
        } else {
            proof {
                assert(c@ != seq![46u8]);
                assert(c@ != seq![46u8, 46u8]);
            }
            stack.push(clone_bytes(c));
            proof {
                assert(bytes_view(stack@) =~~= pre.push(c@));
            }
        }
        i += 1;
    }
    proof {
        assert(bytes_view(comps@).take(comps@.len() as int) =~~= bytes_view(comps@));
    }
    stack
}

fn append_bytes(out: &mut Vec<u8>, s: &[u8])
    ensures
        final(out)@ == old(out)@ + s@,
{
    let mut j: usize = 0;
    proof {
        assert(out@ =~= old(out)@ + s@.take(0));
    }
    while j < s.len()
        invariant
            j <= s@.len(),
            out@ == old(out)@ + s@.take(j as int),
        decreases s@.len() - j,
    {
        out.push(s[j]);
        proof {
            assert(s@.take(j + 1) =~= s@.take(j as int).push(s@[j as int]));
            assert(out@ =~= old(out)@ + s@.take(j + 1));
        }
        j += 1;
    }
    proof {
        assert(s@.take(s@.len() as int) =~= s@);
    }
}

fn join_exec(stack: &Vec<Vec<u8>>) -> (out: Vec<u8>)
    ensures
        out@ == join_abs(bytes_view(stack@)),
{
    let mut out: Vec<u8> = Vec::new();
    if stack.len() == 0 {
        out.push(47u8);
        proof {
            assert(out@ =~= seq![47u8]);
        }
        return out;
    }
    let mut i: usize = 0;
    proof {
        assert(bytes_view(stack@).take(0) =~~= Seq::<Seq<u8>>::empty());
        assert(out@ =~= join_parts(bytes_view(stack@).take(0)));
    }
    while i < stack.len()
        invariant
            i <= stack@.len(),
            out@ == join_parts(bytes_view(stack@).take(i as int)),
        decreases stack@.len() - i,
    {
        let ghost pre = join_parts(bytes_view(stack@).take(i as int));
        proof {
            assert(bytes_view(stack@).take(i + 1).drop_last() =~~= bytes_view(stack@).take(
                i as int,
            ));
            assert(bytes_view(stack@).take(i + 1).last() == stack@[i as int]@);
        }
        out.push(47u8);
        proof {
            assert(out@ =~= pre + seq![47u8]);
        }
        append_bytes(&mut out, stack[i].as_slice());
        proof {
            assert(out@ =~= pre + seq![47u8] + stack@[i as int]@);
        }
        i += 1;
    }
    proof {
        assert(bytes_view(stack@).take(stack@.len() as int) =~~= bytes_view(stack@));
    }
    out
}

/// The canonical absolute form of `path` resolved under the working
/// directory `cwd`, on plain bytes: the anchor of a partition's identity
/// on disk.
pub fn canonicalize_path(cwd: &[u8], path: &[u8]) -> (r: Vec<u8>)
    ensures
        r@ == resolve(cwd@, path@),
{
    let mut comps: Vec<Vec<u8>>;
    if path.len() > 0 && path[0] == 47u8 {
        comps = split_exec(path);
    } else {
        comps = split_exec(cwd);
        let mut pc = split_exec(path);
        comps.append(&mut pc);
        proof {
            assert(bytes_view(comps@) =~~= split_comps(cwd@) + split_comps(path@));
        }
    }
    let stack = norm_exec(&comps);
    join_exec(&stack)
}

} // verus!
