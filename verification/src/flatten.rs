use vstd::prelude::*;

use crate::text::spaces;
use crate::tree::{DirEntry, LinkStatus, NodeV};

verus! {

/// One visible line of the tree view: its display text, the name and link
/// status of the node it shows, and the node's address.
pub struct Row {
    pub text: String,
    pub name: String,
    pub addr: Vec<usize>,
    pub link_status: LinkStatus,
}

/// Model of a row.
pub struct RowV {
    pub text: Seq<char>,
    pub name: Seq<char>,
    pub addr: Seq<usize>,
    pub link_status: LinkStatus,
}

impl View for Row {
    type V = RowV;

    open spec fn view(&self) -> RowV {
        RowV { text: self.text@, name: self.name@, addr: self.addr@, link_status: self.link_status }
    }
}

pub open spec fn row_models(v: Seq<Row>) -> Seq<RowV> {
    v.map_values(|r: Row| r@)
}

/// The expansion marker a row starts with.
pub open spec fn marker_of(expanded: bool) -> Seq<char> {
    if expanded {
        "\u{25bc}"@
    } else {
        "\u{25b6}"@
    }
}

/// The name part of a row: the root shows a bare separator, a symlink shows
/// an arrow and its unresolved target.
pub open spec fn label_of(n: NodeV) -> Seq<char> {
    if n.path == seq!['/'] {
        seq!['/']
    } else {
        match n.link_target {
            Some(t) => n.name + " -> "@ + t,
            None => n.name,
        }
    }
}

/// The full display text of a node's row under an indentation prefix.
pub open spec fn row_text(n: NodeV, prefix: Seq<char>) -> Seq<char> {
    prefix + marker_of(n.expanded) + seq![' '] + label_of(n)
}

pub open spec fn row_of(n: NodeV, addr: Seq<usize>, prefix: Seq<char>) -> RowV {
    RowV { text: row_text(n, prefix), name: n.name, addr: addr, link_status: n.link_status }
}

/// The rows of the subtree at `n`, pre-order: the node's own row, then, only
/// when it is expanded, the rows of each child in stored order, indented one
/// level further.
pub open spec fn rows_of(n: NodeV, addr: Seq<usize>, prefix: Seq<char>) -> Seq<RowV>
    decreases n, 1int, 0int,
{
    seq![row_of(n, addr, prefix)] + if n.expanded {
        rows_of_children(n.children, addr, prefix, 0)
    } else {
        Seq::empty()
    }
}

/// The rows of children `i..` of a node, each subtree in order.
pub open spec fn rows_of_children(
    cs: Seq<NodeV>,
    addr: Seq<usize>,
    prefix: Seq<char>,
    i: int,
) -> Seq<RowV>
    decreases cs, 0int, cs.len() - i,
{
    if i < 0 || i >= cs.len() || i >= usize::MAX as int {
        Seq::empty()
    } else {
        rows_of(cs[i], addr.push(i as usize), prefix + spaces(4)) + rows_of_children(
            cs,
            addr,
            prefix,
            i + 1,
        )
    }
}

/// Append the visible rows of the subtree at `node` to `lines`, giving each
/// row its address under `path` and its indentation under `prefix`.
pub fn walk(node: &DirEntry, prefix: &str, lines: &mut Vec<Row>, path: Vec<usize>)
    ensures
        row_models(final(lines)@) == row_models(old(lines)@) + rows_of(node@, path@, prefix@),
    decreases *node,
{
    let mut text = prefix.to_owned();
    if node.expanded {
        text.append("\u{25bc}");
    } else {
        text.append("\u{25b6}");
    }
    text.append(" ");
    proof {
        reveal_strlit(" ");
        assert(text@ =~= prefix@ + marker_of(node.expanded) + seq![' ']);
    }
    if node.path.as_str().unicode_len() == 1 && node.path.as_str().get_char(0) == '/' {
        proof {
            assert(node.path@ =~= seq!['/']);
        }
        text.append("/");
        proof {
            reveal_strlit("/");
            assert(text@ =~= row_text(node@, prefix@));
        }
    } else {
        proof {
            assert(node.path@ != seq!['/']);
        }
        text.append(node.name.as_str());
        match &node.link_target {
            Some(t) => {
                text.append(" -> ");
                text.append(t.as_str());
                proof {
                    assert(text@ =~= row_text(node@, prefix@));
                }
            },
            None => {
                proof {
                    assert(text@ =~= row_text(node@, prefix@));
                }
            },
        }
    }
    let row = Row {
        text,
        name: node.name.clone(),
        addr: copy_addr(&path),
        link_status: node.link_status,
    };
    proof {
        assert(row@ == row_of(node@, path@, prefix@));
    }
    let ghost lines0 = lines@;
    lines.push(row);
    proof {
        assert(row_models(lines@) =~= row_models(lines0) + seq![row_of(node@, path@, prefix@)]);
    }
    if !node.expanded {
        proof {
            assert(row_models(lines@) =~= row_models(old(lines)@) + rows_of(node@, path@, prefix@));
        }
        return ;
    }
    let mut child_prefix = prefix.to_owned();
    child_prefix.append("    ");
    proof {
        reveal_strlit("    ");
        crate::text::lemma_spaces_len(4);
        assert(child_prefix@ =~= prefix@ + spaces(4));
    }
    let mut i: usize = 0;
    while i < node.children.len()
        invariant
            i <= node.children@.len(),
            node.expanded,
            child_prefix@ == prefix@ + spaces(4),
            row_models(lines@) == row_models(old(lines)@) + seq![
                row_of(node@, path@, prefix@),
            ] + partial_child_rows(node@, path@, prefix@, i as int),
        decreases node.children@.len() - i,
    {
        let mut child_path = copy_addr(&path);
        child_path.push(i);
        proof {
            crate::tree::lemma_model_seq(node.children@);
            assert(decreases_to!(*node => node.children));
            assert(decreases_to!(node.children => node.children@));
            assert(decreases_to!(node.children@ => node.children@[i as int]));
        }
        let ghost before = lines@;
        walk(&node.children[i], child_prefix.as_str(), lines, child_path);
        proof {
            assert(node@.children[i as int] == node.children@[i as int]@);
            lemma_partial_child_rows_step(node@, path@, prefix@, i as int);
            assert(row_models(lines@) =~= row_models(old(lines)@) + seq![
                row_of(node@, path@, prefix@),
            ] + partial_child_rows(node@, path@, prefix@, i + 1));
        }
        i = i + 1;
    }
    proof {
        crate::tree::lemma_model_seq(node.children@);
        let n = node@.children.len() as int;
        lemma_partial_child_rows_full(node@, path@, prefix@, n);
        assert(rows_of_children(node@.children, path@, prefix@, n) =~= Seq::<RowV>::empty());
        assert(partial_child_rows(node@, path@, prefix@, n) + rows_of_children(
            node@.children,
            path@,
            prefix@,
            n,
        ) =~= partial_child_rows(node@, path@, prefix@, n));
        assert(partial_child_rows(node@, path@, prefix@, n) =~= rows_of_children(
            node@.children,
            path@,
            prefix@,
            0,
        ));
        assert(row_models(lines@) =~= row_models(old(lines)@) + rows_of(node@, path@, prefix@));
    }
}

/// The rows of the children before index `i`.
pub open spec fn partial_child_rows(n: NodeV, addr: Seq<usize>, prefix: Seq<char>, i: int) -> Seq<
    RowV,
>
    decreases i,
{
    if i <= 0 {
        Seq::empty()
    } else {
        partial_child_rows(n, addr, prefix, i - 1) + rows_of(
            n.children[i - 1],
            addr.push((i - 1) as usize),
            prefix + spaces(4),
        )
    }
}

proof fn lemma_partial_child_rows_step(n: NodeV, addr: Seq<usize>, prefix: Seq<char>, i: int)
    requires
        0 <= i,
    ensures
        partial_child_rows(n, addr, prefix, i + 1) == partial_child_rows(n, addr, prefix, i)
            + rows_of(n.children[i], addr.push(i as usize), prefix + spaces(4)),
{
}

/// Rows of children before `i` plus rows of children from `i` on are all the
/// child rows.
proof fn lemma_partial_child_rows_full(n: NodeV, addr: Seq<usize>, prefix: Seq<char>, i: int)
    requires
        0 <= i <= n.children.len(),
        n.children.len() <= usize::MAX,
    ensures
        partial_child_rows(n, addr, prefix, i) + rows_of_children(n.children, addr, prefix, i)
            =~= rows_of_children(n.children, addr, prefix, 0),
    decreases i,
{
    if i == 0 {
        assert(partial_child_rows(n, addr, prefix, 0) + rows_of_children(
            n.children,
            addr,
            prefix,
            0,
        ) =~= rows_of_children(n.children, addr, prefix, 0));
    } else {
        lemma_partial_child_rows_full(n, addr, prefix, i - 1);
        assert(partial_child_rows(n, addr, prefix, i) + rows_of_children(
            n.children,
            addr,
            prefix,
            i,
        ) =~= partial_child_rows(n, addr, prefix, i - 1) + rows_of_children(
            n.children,
            addr,
            prefix,
            i - 1,
        ));
    }
}

/// Index of the first element satisfying `p`, or -1.
pub open spec fn find_first<A>(s: Seq<A>, p: spec_fn(A) -> bool) -> int
    decreases s.len(),
{
    if s.len() == 0 {
        -1
    } else if p(s[0]) {
        0
    } else {
        let r = find_first(s.drop_first(), p);
        if r < 0 {
            -1
        } else {
            r + 1
        }
    }
}

/// `find_first` returns the index of the first match: given that nothing
/// before `i` matches, it is `i` when `i` matches and -1 when the end was
/// reached.
pub proof fn lemma_find_first_at<A>(s: Seq<A>, p: spec_fn(A) -> bool, i: int)
    requires
        0 <= i <= s.len(),
        forall|k: int| 0 <= k < i ==> !p(s[k]),
        i < s.len() ==> p(s[i]),
    ensures
        find_first(s, p) == if i < s.len() {
            i
        } else {
            -1
        },
    decreases s.len(),
{
    if s.len() > 0 && i > 0 {
        lemma_find_first_at(s.drop_first(), p, i - 1);
    }
}

/// What `find_first` found matches, and nothing before it does.
pub proof fn lemma_find_first_props<A>(s: Seq<A>, p: spec_fn(A) -> bool)
    ensures
        find_first(s, p) >= 0 ==> find_first(s, p) < s.len() && p(s[find_first(s, p)])
            && forall|k: int| 0 <= k < find_first(s, p) ==> !p(s[k]),
        find_first(s, p) < 0 ==> forall|k: int| 0 <= k < s.len() ==> !p(s[k]),
    decreases s.len(),
{
    if s.len() > 0 {
        lemma_find_first_props(s.drop_first(), p);
        assert(forall|k: int| 1 <= k < s.len() ==> s[k] == s.drop_first()[k - 1]);
    }
}

/// Every row the flattener emits for the subtree of a node reachable at
/// `addr` carries an address that is reachable in the whole tree.
pub proof fn lemma_rows_valid(root: NodeV, n: NodeV, addr: Seq<usize>, prefix: Seq<char>)
    requires
        root.node_at(addr) == Some(n),
    ensures
        forall|k: int|
            0 <= k < rows_of(n, addr, prefix).len() ==> root.node_at(
                #[trigger] rows_of(n, addr, prefix)[k].addr,
            ) is Some,
    decreases n, 1int, 0int,
{
    if n.expanded {
        lemma_rows_children_valid(root, n, addr, prefix, 0);
    }
}

proof fn lemma_rows_children_valid(
    root: NodeV,
    n: NodeV,
    addr: Seq<usize>,
    prefix: Seq<char>,
    i: int,
)
    requires
        root.node_at(addr) == Some(n),
        0 <= i,
    ensures
        forall|k: int|
            0 <= k < rows_of_children(n.children, addr, prefix, i).len() ==> root.node_at(
                #[trigger] rows_of_children(n.children, addr, prefix, i)[k].addr,
            ) is Some,
    decreases n, 0int, n.children.len() - i,
{
    if i < n.children.len() && i < usize::MAX as int {
        crate::tree::lemma_node_at_push(root, addr, n, i as usize);
        lemma_rows_valid(root, n.children[i], addr.push(i as usize), prefix + spaces(4));
        lemma_rows_children_valid(root, n, addr, prefix, i + 1);
    }
}

/// Every node of the tree has a representable number of children, as every
/// tree this library builds does.
pub open spec fn bounded(n: NodeV) -> bool
    decreases n, 1int,
{
    n.children.len() <= usize::MAX && bounded_seq(n.children)
}

pub open spec fn bounded_seq(v: Seq<NodeV>) -> bool
    decreases v, 0int,
{
    if v.len() == 0 {
        true
    } else {
        bounded(v[0]) && bounded_seq(v.drop_first())
    }
}

pub proof fn lemma_bounded_seq(v: Seq<NodeV>)
    requires
        bounded_seq(v),
    ensures
        forall|i: int| 0 <= i < v.len() ==> bounded(#[trigger] v[i]),
    decreases v.len(),
{
    if v.len() > 0 {
        lemma_bounded_seq(v.drop_first());
        assert(forall|i: int| 1 <= i < v.len() ==> v[i] == v.drop_first()[i - 1]);
    }
}

/// The node `rel` levels below `n` exists and every node strictly above it on
/// that path (including `n`) is expanded.
pub open spec fn visible_at(n: NodeV, rel: Seq<usize>) -> bool
    decreases rel.len(),
{
    if rel.len() == 0 {
        true
    } else {
        n.expanded && (rel[0] as int) < n.children.len() && visible_at(
            n.children[rel[0] as int],
            rel.drop_first(),
        )
    }
}

/// Some row of `rows` shows the node at address `a`.
pub open spec fn has_addr(rows: Seq<RowV>, a: Seq<usize>) -> bool {
    exists|i: int| 0 <= i < rows.len() && rows[i].addr == a
}

pub proof fn lemma_has_addr_split(s1: Seq<RowV>, s2: Seq<RowV>, a: Seq<usize>)
    ensures
        has_addr(s1 + s2, a) == (has_addr(s1, a) || has_addr(s2, a)),
{
    if has_addr(s1 + s2, a) {
        let i = choose|i: int| 0 <= i < (s1 + s2).len() && (s1 + s2)[i].addr == a;
        if i < s1.len() {
            assert(s1[i].addr == a);
        } else {
            assert(s2[i - s1.len()].addr == a);
        }
    }
    if has_addr(s1, a) {
        let i = choose|i: int| 0 <= i < s1.len() && s1[i].addr == a;
        assert((s1 + s2)[i].addr == a);
    }
    if has_addr(s2, a) {
        let i = choose|i: int| 0 <= i < s2.len() && s2[i].addr == a;
        assert((s1 + s2)[s1.len() + i].addr == a);
    }
}

/// Every row of a subtree flattening carries an address extending the
/// subtree's base address; only the subtree root's own row carries the base
/// itself.
pub proof fn lemma_rows_shape(n: NodeV, base: Seq<usize>, prefix: Seq<char>)
    ensures
        rows_of(n, base, prefix).len() >= 1,
        rows_of(n, base, prefix)[0].addr == base,
        forall|k: int|
            0 <= k < rows_of(n, base, prefix).len() ==> (#[trigger] rows_of(n, base, prefix)[
                k
            ].addr).len() >= base.len() && rows_of(n, base, prefix)[k].addr.take(base.len() as int)
                == base,
        forall|k: int|
            1 <= k < rows_of(n, base, prefix).len() ==> (#[trigger] rows_of(n, base, prefix)[
                k
            ].addr).len() > base.len(),
    decreases n, 1int, 0int,
{
    assert(base.take(base.len() as int) =~= base);
    if n.expanded {
        lemma_rows_children_shape(n, base, prefix, 0);
    }
}

/// As `lemma_rows_shape`, for the rows of the children from index `i` on:
/// every address there extends the base by a child index of at least `i`.
pub proof fn lemma_rows_children_shape(n: NodeV, base: Seq<usize>, prefix: Seq<char>, i: int)
    requires
        0 <= i,
    ensures
        forall|k: int|
            0 <= k < rows_of_children(n.children, base, prefix, i).len() ==> {
                let a = (#[trigger] rows_of_children(n.children, base, prefix, i)[k].addr);
                a.len() > base.len() && a.take(base.len() as int) == base && i <= a[
                    base.len() as int
                ]
            },
    decreases n, 0int, n.children.len() - i,
{
    if 0 <= i < n.children.len() && i < usize::MAX as int {
        let cb = base.push(i as usize);
        let crows = rows_of(n.children[i], cb, prefix + spaces(4));
        lemma_rows_shape(n.children[i], cb, prefix + spaces(4));
        assert forall|k: int| 0 <= k < crows.len() implies {
            let a = #[trigger] crows[k].addr;
            a.len() > base.len() && a.take(base.len() as int) == base && i <= a[base.len() as int]
        } by {
            let a = crows[k].addr;
            assert(a.take(cb.len() as int) == cb);
            assert(a.take(cb.len() as int).take(base.len() as int) =~= a.take(
                base.len() as int,
            ));
            assert(cb.take(base.len() as int) =~= base);
            assert(a[base.len() as int] == a.take(cb.len() as int)[base.len() as int]);
        }
        lemma_rows_children_shape(n, base, prefix, i + 1);
        assert forall|k: int|
            0 <= k < rows_of_children(n.children, base, prefix, i).len() implies {
            let a = (#[trigger] rows_of_children(n.children, base, prefix, i)[k].addr);
            a.len() > base.len() && a.take(base.len() as int) == base && i <= a[base.len() as int]
        } by {
            if k < crows.len() {
                assert(rows_of_children(n.children, base, prefix, i)[k] == crows[k]);
            } else {
                assert(rows_of_children(n.children, base, prefix, i)[k] == rows_of_children(
                    n.children,
                    base,
                    prefix,
                    i + 1,
                )[k - crows.len()]);
            }
        }
    }
}

/// No two rows of a flattening share an address.
pub proof fn lemma_rows_distinct(n: NodeV, base: Seq<usize>, prefix: Seq<char>)
    ensures
        forall|i: int, j: int|
            0 <= i < j < rows_of(n, base, prefix).len() ==> #[trigger] rows_of(n, base, prefix)[
                i
            ].addr != #[trigger] rows_of(n, base, prefix)[j].addr,
    decreases n, 1int, 0int,
{
    lemma_rows_shape(n, base, prefix);
    if n.expanded {
        lemma_rows_children_distinct(n, base, prefix, 0);
        lemma_rows_children_shape(n, base, prefix, 0);
    }
}

pub proof fn lemma_rows_children_distinct(n: NodeV, base: Seq<usize>, prefix: Seq<char>, i: int)
    requires
        0 <= i,
    ensures
        forall|a: int, b: int|
            0 <= a < b < rows_of_children(n.children, base, prefix, i).len()
                ==> #[trigger] rows_of_children(n.children, base, prefix, i)[a].addr
                != #[trigger] rows_of_children(n.children, base, prefix, i)[b].addr,
    decreases n, 0int, n.children.len() - i,
{
    if 0 <= i < n.children.len() && i < usize::MAX as int {
        let cb = base.push(i as usize);
        let crows = rows_of(n.children[i], cb, prefix + spaces(4));
        let rest = rows_of_children(n.children, base, prefix, i + 1);
        lemma_rows_distinct(n.children[i], cb, prefix + spaces(4));
        lemma_rows_shape(n.children[i], cb, prefix + spaces(4));
        lemma_rows_children_distinct(n, base, prefix, i + 1);
        lemma_rows_children_shape(n, base, prefix, i + 1);
        assert forall|a: int, b: int|
            0 <= a < b < rows_of_children(n.children, base, prefix, i).len()
                implies #[trigger] rows_of_children(n.children, base, prefix, i)[a].addr
            != #[trigger] rows_of_children(n.children, base, prefix, i)[b].addr by {
            let whole = rows_of_children(n.children, base, prefix, i);
            if b < crows.len() {
                assert(whole[a] == crows[a] && whole[b] == crows[b]);
            } else if a >= crows.len() {
                assert(whole[a] == rest[a - crows.len()] && whole[b] == rest[b - crows.len()]);
            } else {
                assert(whole[a] == crows[a] && whole[b] == rest[b - crows.len()]);
                let aa = crows[a].addr;
                let ab = rest[b - crows.len()].addr;
                assert(aa.take(cb.len() as int) == cb);
                assert(aa[base.len() as int] == aa.take(cb.len() as int)[base.len() as int]);
                assert(aa[base.len() as int] == i);
                assert(ab[base.len() as int] >= i + 1);
            }
        }
    }
}

/// The View Flattener emits a row for an address exactly when the address
/// denotes a node all of whose ancestors are expanded.
pub proof fn lemma_row_iff_visible(n: NodeV, base: Seq<usize>, prefix: Seq<char>, rel: Seq<usize>)
    requires
        bounded(n),
    ensures
        has_addr(rows_of(n, base, prefix), base + rel) <==> visible_at(n, rel),
    decreases n, 1int, 0int,
{
    let rows = rows_of(n, base, prefix);
    let own = seq![row_of(n, base, prefix)];
    if rel.len() == 0 {
        assert(base + rel =~= base);
        assert(rows[0].addr == base);
        assert(has_addr(rows, base));
    } else {
        assert((base + rel).len() > base.len());
        assert(!has_addr(own, base + rel)) by {
            if has_addr(own, base + rel) {
                let i = choose|i: int| 0 <= i < own.len() && own[i].addr == base + rel;
                assert(own[0].addr == base);
            }
        }
        if n.expanded {
            lemma_has_addr_split(own, rows_of_children(n.children, base, prefix, 0), base + rel);
            lemma_bounded_seq(n.children);
            lemma_children_row_iff(n, base, prefix, 0, rel);
        } else {
            assert(rows =~= own + Seq::<RowV>::empty());
            lemma_has_addr_split(own, Seq::<RowV>::empty(), base + rel);
            assert(!has_addr(Seq::<RowV>::empty(), base + rel)) by {
                if has_addr(Seq::<RowV>::empty(), base + rel) {
                    let i = choose|i: int|
                        0 <= i < Seq::<RowV>::empty().len() && Seq::<RowV>::empty()[i].addr == base
                            + rel;
                }
            }
        }
    }
}

proof fn lemma_children_row_iff(n: NodeV, base: Seq<usize>, prefix: Seq<char>, i: int, rel: Seq<
    usize,
>)
    requires
        rel.len() > 0,
        0 <= i,
        n.children.len() <= usize::MAX,
        forall|j: int| 0 <= j < n.children.len() ==> bounded(#[trigger] n.children[j]),
    ensures
        has_addr(rows_of_children(n.children, base, prefix, i), base + rel) <==> (i <= rel[0]
            && (rel[0] as int) < n.children.len() && visible_at(
            n.children[rel[0] as int],
            rel.drop_first(),
        )),
    decreases n, 0int, n.children.len() - i,
{
    let whole = rows_of_children(n.children, base, prefix, i);
    if i >= n.children.len() {
        assert(!has_addr(whole, base + rel)) by {
            if has_addr(whole, base + rel) {
                let k = choose|k: int| 0 <= k < whole.len() && whole[k].addr == base + rel;
            }
        }
    } else {
        let cb = base.push(i as usize);
        let crows = rows_of(n.children[i], cb, prefix + spaces(4));
        let rest = rows_of_children(n.children, base, prefix, i + 1);
        lemma_has_addr_split(crows, rest, base + rel);
        lemma_children_row_iff(n, base, prefix, i + 1, rel);
        if rel[0] == i {
            assert(base + rel =~= cb + rel.drop_first());
            lemma_row_iff_visible(n.children[i], cb, prefix + spaces(4), rel.drop_first());
        } else {
            assert(!has_addr(crows, base + rel)) by {
                if has_addr(crows, base + rel) {
                    let k = choose|k: int| 0 <= k < crows.len() && crows[k].addr == base + rel;
                    lemma_rows_shape(n.children[i], cb, prefix + spaces(4));
                    assert(crows[k].addr.take(cb.len() as int) == cb);
                    assert((base + rel).take(cb.len() as int) =~= base.push(rel[0]));
                    assert(base.push(rel[0])[base.len() as int] == rel[0]);
                    assert(cb[base.len() as int] == i);
                }
            }
        }
    }
}

/// Copy an address vector.
pub fn copy_addr(v: &Vec<usize>) -> (r: Vec<usize>)
    ensures
        r@ == v@,
{
    let mut r: Vec<usize> = Vec::new();
    let mut i: usize = 0;
    while i < v.len()
        invariant
            i <= v@.len(),
            r@ == v@.take(i as int),
        decreases v@.len() - i,
    {
        r.push(v[i]);
        proof {
            assert(r@ =~= v@.take(i + 1));
        }
        i = i + 1;
    }
    proof {
        assert(v@.take(v@.len() as int) =~= v@);
    }
    r
}

/// Compare two addresses.
pub fn addr_eq(a: &Vec<usize>, b: &Vec<usize>) -> (r: bool)
    ensures
        r == (a@ == b@),
{
    if a.len() != b.len() {
        return false;
    }
    let mut i: usize = 0;
    while i < a.len()
        invariant
            i <= a@.len(),
            a@.len() == b@.len(),
            forall|k: int| 0 <= k < i ==> a@[k] == b@[k],
        decreases a@.len() - i,
    {
        if a[i] != b[i] {
            return false;
        }
        i = i + 1;
    }
    proof {
        assert(a@ =~= b@);
    }
    true
}

} // verus!
