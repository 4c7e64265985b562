use vstd::prelude::*;

verus! {

/// Index of the last '/' in `p`, or -1 if there is none.
pub open spec fn last_slash(p: Seq<char>) -> int
    decreases p.len(),
{
    if p.len() == 0 {
        -1
    } else if p[p.len() - 1] == '/' {
        p.len() - 1
    } else {
        last_slash(p.drop_last())
    }
}

pub proof fn lemma_last_slash(p: Seq<char>)
    ensures
        -1 <= last_slash(p) < p.len(),
        last_slash(p) >= 0 ==> p[last_slash(p)] == '/',
        forall|k: int| last_slash(p) < k < p.len() ==> p[k] != '/',
    decreases p.len(),
{
    if p.len() > 0 && p[p.len() - 1] != '/' {
        lemma_last_slash(p.drop_last());
        assert(forall|k: int| 0 <= k < p.len() - 1 ==> p.drop_last()[k] == p[k]);
    }
}

/// The final path component: what the node is displayed as. The filesystem
/// root keeps its whole path as its name.
pub open spec fn name_of(p: Seq<char>) -> Seq<char> {
    if p == seq!['/'] {
        p
    } else {
        p.skip(last_slash(p) + 1)
    }
}

/// Derive a node's display name from its absolute path.
pub fn name_from_path(path: &str) -> (r: String)
    ensures
        r@ == name_of(path@),
{
    let n = path.unicode_len();
    if n == 1 && path.get_char(0) == '/' {
        proof {
            assert(path@ =~= seq!['/']);
        }
        return path.to_owned();
    }
    proof {
        assert(path@ != seq!['/']);
        lemma_last_slash(path@);
    }
    let mut j: usize = n;
    while j > 0
        invariant
            j <= n,
            n == path@.len(),
            path@ != seq!['/'],
            forall|k: int| j <= k < n ==> path@[k] != '/',
        decreases j,
    {
        if path.get_char(j - 1) == '/' {
            proof {
                lemma_last_slash(path@);
                assert(last_slash(path@) == j - 1);
                assert(path@.subrange(j as int, n as int) =~= path@.skip(j as int));
            }
            let tail = path.substring_char(j, n);
            return tail.to_owned();
        }
        j = j - 1;
    }
    proof {
        assert(last_slash(path@) == -1);
        assert(path@.skip(0) =~= path@);
    }
    path.to_owned()
}

/// A well-formed entry name: nonempty and free of path separators, as every
/// name a directory listing reports is.
pub open spec fn valid_name(nm: Seq<char>) -> bool {
    nm.len() > 0 && forall|k: int| 0 <= k < nm.len() ==> nm[k] != '/'
}

/// The name derived from a joined path is the joined entry name.
pub proof fn lemma_name_of_join(parent: Seq<char>, nm: Seq<char>)
    requires
        valid_name(nm),
    ensures
        name_of(join_path_spec(parent, nm)) == nm,
{
    let j = join_path_spec(parent, nm);
    let q: int = if parent == seq!['/'] {
        0
    } else {
        parent.len() as int
    };
    assert(j.len() > 1);
    assert(j != seq!['/']);
    assert(j[q] == '/');
    assert(forall|k: int| q < k < j.len() ==> j[k] == nm[k - q - 1]);
    lemma_last_slash(j);
    assert(last_slash(j) == q) by {
        if last_slash(j) > q {
            assert(j[last_slash(j)] != '/');
        }
        if last_slash(j) < q {
            assert(j[q] != '/');
        }
    }
    assert(j.skip(q + 1) =~= nm);
}

/// The path of a child named `name` inside the directory at `parent`.
pub open spec fn join_path_spec(parent: Seq<char>, name: Seq<char>) -> Seq<char> {
    if parent == seq!['/'] {
        parent + name
    } else {
        parent + seq!['/'] + name
    }
}

pub fn join_path(parent: &str, name: &str) -> (r: String)
    ensures
        r@ == join_path_spec(parent@, name@),
{
    let mut s = parent.to_owned();
    if !(parent.unicode_len() == 1 && parent.get_char(0) == '/') {
        proof {
            assert(parent@ != seq!['/']);
        }
        s.append("/");
        proof {
            reveal_strlit("/");
            assert(s@ =~= parent@ + seq!['/']);
        }
    } else {
        proof {
            assert(parent@ =~= seq!['/']);
        }
    }
    s.append(name);
    s
}

/// `p` names a directory on the chain from the root to `t` (component-wise
/// path prefix of absolute paths).
pub open spec fn is_path_prefix(p: Seq<char>, t: Seq<char>) -> bool {
    if p == seq!['/'] {
        t.len() >= 1 && t[0] == '/'
    } else {
        p.len() <= t.len() && t.take(p.len() as int) == p && (p.len() == t.len() || t[p.len()
            as int] == '/')
    }
}

pub fn path_prefix(p: &str, t: &str) -> (r: bool)
    ensures
        r == is_path_prefix(p@, t@),
{
    let np = p.unicode_len();
    let nt = t.unicode_len();
    if np == 1 && p.get_char(0) == '/' {
        proof {
            assert(p@ =~= seq!['/']);
        }
        return nt >= 1 && t.get_char(0) == '/';
    }
    proof {
        assert(p@ != seq!['/']);
    }
    if np > nt {
        return false;
    }
    if np < nt && t.get_char(np) != '/' {
        return false;
    }
    let mut i: usize = 0;
    while i < np
        invariant
            i <= np,
            np == p@.len(),
            nt == t@.len(),
            np <= nt,
            forall|k: int| 0 <= k < i ==> t@[k] == p@[k],
        decreases np - i,
    {
        if t.get_char(i) != p.get_char(i) {
            assert(t@.take(np as int)[i as int] != p@[i as int]);
            return false;
        }
        i = i + 1;
    }
    proof {
        assert(t@.take(np as int) =~= p@);
    }
    true
}

/// The parent directory's path; the root is its own parent.
pub open spec fn parent_of(p: Seq<char>) -> Seq<char> {
    if last_slash(p) <= 0 {
        seq!['/']
    } else {
        p.take(last_slash(p))
    }
}

/// The chain of directories from the filesystem root down to `p`.
pub open spec fn ancestor_chain(p: Seq<char>) -> Seq<Seq<char>>
    decreases p.len() via ancestor_chain_decreases
{
    if p.len() <= 1 {
        seq![seq!['/']]
    } else {
        ancestor_chain(parent_of(p)).push(p)
    }
}

#[via_fn]
proof fn ancestor_chain_decreases(p: Seq<char>) {
    if p.len() > 1 {
        lemma_parent_shorter(p);
    }
}

pub proof fn lemma_parent_shorter(p: Seq<char>)
    requires
        p.len() > 1,
    ensures
        parent_of(p).len() < p.len(),
{
    lemma_last_slash(p);
}

pub fn parent_path(p: &str) -> (r: String)
    ensures
        r@ == parent_of(p@),
{
    let n = p.unicode_len();
    proof {
        lemma_last_slash(p@);
    }
    let mut j: usize = n;
    while j > 0
        invariant
            j <= n,
            n == p@.len(),
            forall|k: int| j <= k < n ==> p@[k] != '/',
        decreases j,
    {
        if p.get_char(j - 1) == '/' {
            proof {
                lemma_last_slash(p@);
                assert(last_slash(p@) == j - 1);
            }
            if j - 1 == 0 {
                let mut s = String::new();
                s.append("/");
                proof {
                    reveal_strlit("/");
                    assert(s@ =~= seq!['/']);
                }
                return s;
            }
            let head = p.substring_char(0, j - 1);
            return head.to_owned();
        }
        j = j - 1;
    }
    proof {
        assert(last_slash(p@) == -1);
    }
    let mut s = String::new();
    s.append("/");
    proof {
        reveal_strlit("/");
        assert(s@ =~= seq!['/']);
    }
    s
}

/// All ancestors of `path` from the root down, ending with `path` itself.
pub fn ancestors_of(path: &str) -> (r: Vec<String>)
    ensures
        r@.map_values(|s: String| s@) == ancestor_chain(path@),
    decreases path@.len(),
{
    let n = path.unicode_len();
    if n <= 1 {
        let mut s = String::new();
        s.append("/");
        proof {
            reveal_strlit("/");
            assert(s@ =~= seq!['/']);
        }
        let mut v: Vec<String> = Vec::new();
        v.push(s);
        proof {
            assert(v@.map_values(|t: String| t@) =~= ancestor_chain(path@));
        }
        return v;
    }
    let par = parent_path(path);
    proof {
        lemma_parent_shorter(path@);
    }
    let mut v = ancestors_of(par.as_str());
    v.push(path.to_owned());
    proof {
        assert(v@.map_values(|t: String| t@) =~= ancestor_chain(path@));
    }
    v
}

} // verus!
