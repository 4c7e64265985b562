use vstd::prelude::*;

use crate::paths::{is_path_prefix, join_path, join_path_spec, name_from_path, name_of, path_prefix};
use crate::text::{seq_le, str_le};

verus! {

/// Symlink resolution status of a directory node.
#[derive(Clone, Copy, Debug, PartialEq, Eq, Structural)]
pub enum LinkStatus {
    Normal,
    SymlinkOk,
    SymlinkBroken,
}

/// One lazily loaded directory in the tree.
#[derive(Debug)]
pub struct DirEntry {
    pub name: String,
    pub path: String,
    pub expanded: bool,
    pub children: Vec<DirEntry>,
    pub is_loaded: bool,
    pub link_status: LinkStatus,
    pub link_target: Option<String>,
}

/// Mathematical model of a tree node.
pub struct NodeV {
    pub name: Seq<char>,
    pub path: Seq<char>,
    pub expanded: bool,
    pub children: Seq<NodeV>,
    pub is_loaded: bool,
    pub link_status: LinkStatus,
    pub link_target: Option<Seq<char>>,
}

/// What one directory scan reports about one entry: its name and what a
/// symlink-aware stat of it said.
pub struct ScanEntry {
    pub name: String,
    pub is_dir: bool,
    pub link_status: LinkStatus,
    pub link_target: Option<String>,
}

/// Model of a scan entry.
pub struct ScanV {
    pub name: Seq<char>,
    pub is_dir: bool,
    pub link_status: LinkStatus,
    pub link_target: Option<Seq<char>>,
}

pub open spec fn opt_str_model(o: Option<String>) -> Option<Seq<char>> {
    match o {
        Some(t) => Some(t@),
        None => None,
    }
}

impl View for ScanEntry {
    type V = ScanV;

    open spec fn view(&self) -> ScanV {
        ScanV {
            name: self.name@,
            is_dir: self.is_dir,
            link_status: self.link_status,
            link_target: opt_str_model(self.link_target),
        }
    }
}

/// The models of a sequence of nodes, in order.
pub open spec fn model_seq(v: Seq<DirEntry>) -> Seq<NodeV>
    decreases v, 0int,
{
    if v.len() == 0 {
        Seq::empty()
    } else {
        seq![v[0].model()] + model_seq(v.drop_first())
    }
}

pub proof fn lemma_model_seq(v: Seq<DirEntry>)
    ensures
        model_seq(v).len() == v.len(),
        forall|i: int| 0 <= i < v.len() ==> model_seq(v)[i] == v[i].model(),
    decreases v.len(),
{
    if v.len() > 0 {
        lemma_model_seq(v.drop_first());
    }
}

impl DirEntry {
    /// The model of this node: the same tree over mathematical sequences.
    pub open spec fn model(&self) -> NodeV
        decreases *self, 1int, via DirEntry::model_decreases
    {
        NodeV {
            name: self.name@,
            path: self.path@,
            expanded: self.expanded,
            children: model_seq(self.children@),
            is_loaded: self.is_loaded,
            link_status: self.link_status,
            link_target: opt_str_model(self.link_target),
        }
    }

    #[via_fn]
    proof fn model_decreases(&self) {
        assert(decreases_to!(*self => self.children));
        assert(decreases_to!(self.children => self.children@));
    }
}

impl View for DirEntry {
    type V = NodeV;

    open spec fn view(&self) -> NodeV {
        self.model()
    }
}

/// A node as `create` builds it: name derived from the path, collapsed,
/// nothing loaded yet.
pub open spec fn fresh_node(path: Seq<char>, ls: LinkStatus, lt: Option<Seq<char>>) -> NodeV {
    NodeV {
        name: name_of(path),
        path: path,
        expanded: false,
        children: Seq::empty(),
        is_loaded: false,
        link_status: ls,
        link_target: lt,
    }
}

/// The node a scan entry of `parent` turns into.
pub open spec fn scan_node(parent: Seq<char>, e: ScanV) -> NodeV {
    fresh_node(join_path_spec(parent, e.name), e.link_status, e.link_target)
}

/// Insert `x` into a name-sorted sequence, before the first node whose name
/// is not below `x`'s.
pub open spec fn insort(s: Seq<NodeV>, x: NodeV) -> Seq<NodeV>
    decreases s.len(),
{
    if s.len() == 0 {
        seq![x]
    } else if seq_le(x.name, s[0].name) {
        seq![x] + s
    } else {
        seq![s[0]] + insort(s.drop_first(), x)
    }
}

/// Where `insort` puts `x`: at the first index whose name is not below `x`'s.
pub proof fn lemma_insort_at(s: Seq<NodeV>, x: NodeV, p: int)
    requires
        0 <= p <= s.len(),
        forall|k: int| 0 <= k < p ==> !seq_le(x.name, s[k].name),
        p < s.len() ==> seq_le(x.name, s[p].name),
    ensures
        insort(s, x) == s.insert(p, x),
    decreases s.len(),
{
    if s.len() == 0 {
        assert(insort(s, x) =~= s.insert(0, x));
    } else if p == 0 {
        assert(insort(s, x) =~= s.insert(0, x));
    } else {
        lemma_insort_at(s.drop_first(), x, p - 1);
        assert(seq![s[0]] + s.drop_first().insert(p - 1, x) =~= s.insert(p, x));
    }
}

/// Fold a scan into sorted children, from entry `i` on: directories become
/// nodes inserted in name order, everything else is dropped.
pub open spec fn load_fold(parent: Seq<char>, acc: Seq<NodeV>, es: Seq<ScanV>, i: int) -> Seq<
    NodeV,
>
    decreases es.len() - i,
{
    if i < 0 || i >= es.len() {
        acc
    } else if es[i].is_dir {
        load_fold(parent, insort(acc, scan_node(parent, es[i])), es, i + 1)
    } else {
        load_fold(parent, acc, es, i + 1)
    }
}

/// The children a full load of `parent` builds from a scan.
pub open spec fn loaded_children(parent: Seq<char>, es: Seq<ScanV>) -> Seq<NodeV> {
    load_fold(parent, Seq::empty(), es, 0)
}

/// As `load_fold`, but keeping only directories on the chain toward `target`.
pub open spec fn load_only_fold(
    parent: Seq<char>,
    target: Seq<char>,
    acc: Seq<NodeV>,
    es: Seq<ScanV>,
    i: int,
) -> Seq<NodeV>
    decreases es.len() - i,
{
    if i < 0 || i >= es.len() {
        acc
    } else if es[i].is_dir && is_path_prefix(join_path_spec(parent, es[i].name), target) {
        load_only_fold(parent, target, insort(acc, scan_node(parent, es[i])), es, i + 1)
    } else {
        load_only_fold(parent, target, acc, es, i + 1)
    }
}

/// The children a priming load of `parent` toward `target` retains.
pub open spec fn only_children(parent: Seq<char>, target: Seq<char>, es: Seq<ScanV>) -> Seq<
    NodeV,
> {
    load_only_fold(parent, target, Seq::empty(), es, 0)
}

/// What a full load leaves a node as: a no-op when already loaded, else the
/// sorted directory children of the scan, marked loaded.
pub open spec fn spec_load(n: NodeV, es: Seq<ScanV>) -> NodeV {
    if n.is_loaded {
        n
    } else {
        NodeV { children: loaded_children(n.path, es), is_loaded: true, ..n }
    }
}

/// What a priming load leaves a node as: filtered children, still not loaded.
pub open spec fn spec_load_only(n: NodeV, target: Seq<char>, es: Seq<ScanV>) -> NodeV {
    NodeV { children: only_children(n.path, target, es), is_loaded: false, ..n }
}

pub open spec fn scan_models(v: Seq<ScanEntry>) -> Seq<ScanV> {
    v.map_values(|e: ScanEntry| e@)
}

impl NodeV {
    /// The node reached by following a sequence of child indices, if every
    /// index is in bounds.
    pub open spec fn node_at(self, addr: Seq<usize>) -> Option<NodeV>
        decreases addr.len(),
    {
        if addr.len() == 0 {
            Some(self)
        } else if (addr[0] as int) < self.children.len() {
            self.children[addr[0] as int].node_at(addr.drop_first())
        } else {
            None
        }
    }

    /// The same tree with the node at `addr` replaced by `m`.
    pub open spec fn replace_at(self, addr: Seq<usize>, m: NodeV) -> NodeV
        decreases addr.len(),
    {
        if addr.len() == 0 {
            m
        } else if (addr[0] as int) < self.children.len() {
            NodeV {
                children: self.children.update(
                    addr[0] as int,
                    self.children[addr[0] as int].replace_at(addr.drop_first(), m),
                ),
                ..self
            }
        } else {
            self
        }
    }

    /// The same tree with `expanded` cleared on this node and every descendant.
    pub open spec fn collapsed(self) -> NodeV
        decreases self, 1int,
    {
        NodeV { expanded: false, children: collapsed_seq(self.children), ..self }
    }
}

/// `collapsed` applied to each node of a sequence.
pub open spec fn collapsed_seq(v: Seq<NodeV>) -> Seq<NodeV>
    decreases v, 0int,
{
    if v.len() == 0 {
        Seq::empty()
    } else {
        seq![v[0].collapsed()] + collapsed_seq(v.drop_first())
    }
}

pub proof fn lemma_collapsed_seq(v: Seq<NodeV>)
    ensures
        collapsed_seq(v).len() == v.len(),
        forall|i: int| 0 <= i < v.len() ==> collapsed_seq(v)[i] == v[i].collapsed(),
    decreases v.len(),
{
    if v.len() > 0 {
        lemma_collapsed_seq(v.drop_first());
    }
}

/// Following a concatenated address is following one part, then the other.
pub proof fn lemma_node_at_concat(n: NodeV, a: Seq<usize>, b: Seq<usize>)
    ensures
        n.node_at(a + b) == match n.node_at(a) {
            Some(m) => m.node_at(b),
            None => None::<NodeV>,
        },
    decreases a.len(),
{
    if a.len() == 0 {
        assert(a + b =~= b);
    } else {
        assert((a + b)[0] == a[0]);
        if (a[0] as int) < n.children.len() {
            assert((a + b).drop_first() =~= a.drop_first() + b);
            lemma_node_at_concat(n.children[a[0] as int], a.drop_first(), b);
        }
    }
}

/// Extending a valid address by a child index leads to that child.
pub proof fn lemma_node_at_push(n: NodeV, a: Seq<usize>, m: NodeV, i: usize)
    requires
        n.node_at(a) == Some(m),
        (i as int) < m.children.len(),
    ensures
        n.node_at(a.push(i)) == Some(m.children[i as int]),
{
    assert(a.push(i) =~= a + seq![i]);
    lemma_node_at_concat(n, a, seq![i]);
    assert(seq![i].drop_first() =~= Seq::<usize>::empty());
    assert(m.children[i as int].node_at(Seq::<usize>::empty()) == Some(m.children[i as int]));
    assert(m.node_at(seq![i]) == Some(m.children[i as int]));
}

/// A valid address stays valid under replacement at that address, and leads
/// to the replacement.
pub proof fn lemma_node_at_replace(n: NodeV, addr: Seq<usize>, m: NodeV)
    requires
        n.node_at(addr) is Some,
    ensures
        n.replace_at(addr, m).node_at(addr) == Some(m),
    decreases addr.len(),
{
    if addr.len() > 0 {
        lemma_node_at_replace(n.children[addr[0] as int], addr.drop_first(), m);
    }
}

impl DirEntry {
    /// A node for the directory at `path`, as a symlink-aware stat reported
    /// it: collapsed, not yet loaded, named after the path's last component.
    pub fn new(path: String, link_status: LinkStatus, link_target: Option<String>) -> (r:
        DirEntry)
        ensures
            r@ == fresh_node(path@, link_status, opt_str_model(link_target)),
    {
        let name = name_from_path(path.as_str());
        let r = DirEntry {
            name,
            path,
            expanded: false,
            children: Vec::new(),
            is_loaded: false,
            link_status,
            link_target,
        };
        proof {
            assert(model_seq(r.children@) =~= Seq::<NodeV>::empty());
        }
        r
    }

    /// Fill `children` from a directory scan: no-op when already loaded, else
    /// keep the directories, in name order, and mark the node loaded. Loading
    /// is idempotent: a second call leaves `children` and `is_loaded` as the
    /// first left them.
    pub fn load_children(&mut self, entries: &Vec<ScanEntry>)
        ensures
            final(self)@ == spec_load(old(self)@, scan_models(entries@)),
    {
        if self.is_loaded {
            return ;
        }
        let ghost es = scan_models(entries@);
        let mut children: Vec<DirEntry> = Vec::new();
        proof {
            assert(model_seq(children@) =~= Seq::<NodeV>::empty());
        }
        let mut i: usize = 0;
        while i < entries.len()
            invariant
                i <= entries@.len(),
                es == scan_models(entries@),
                loaded_children(self.path@, es) == load_fold(
                    self.path@,
                    model_seq(children@),
                    es,
                    i as int,
                ),
            decreases entries@.len() - i,
        {
            if entries[i].is_dir {
                let child = DirEntry::new(
                    join_path(self.path.as_str(), entries[i].name.as_str()),
                    entries[i].link_status,
                    clone_opt_string(&entries[i].link_target),
                );
                proof {
                    assert(child@ == scan_node(self.path@, es[i as int]));
                }
                insert_sorted(&mut children, child);
            }
            i = i + 1;
        }
        self.children = children;
        self.is_loaded = true;
    }

    /// A priming load toward `target`: fill `children` with the scanned
    /// directories that lie on the chain to `target`, in name order, without
    /// marking the node loaded. Reports the index of the retained child to
    /// descend into, if any was found.
    pub fn load_only(&mut self, target: &str, entries: &Vec<ScanEntry>) -> (r: Option<usize>)
        ensures
            final(self)@ == spec_load_only(old(self)@, target@, scan_models(entries@)),
            r == if spec_load_only(old(self)@, target@, scan_models(entries@)).children.len()
                > 0 {
                Some(0usize)
            } else {
                None::<usize>
            },
    {
        let ghost es = scan_models(entries@);
        let mut children: Vec<DirEntry> = Vec::new();
        proof {
            assert(model_seq(children@) =~= Seq::<NodeV>::empty());
        }
        let mut i: usize = 0;
        while i < entries.len()
            invariant
                i <= entries@.len(),
                es == scan_models(entries@),
                only_children(self.path@, target@, es) == load_only_fold(
                    self.path@,
                    target@,
                    model_seq(children@),
                    es,
                    i as int,
                ),
            decreases entries@.len() - i,
        {
            if entries[i].is_dir {
                let child_path = join_path(self.path.as_str(), entries[i].name.as_str());
                if path_prefix(child_path.as_str(), target) {
                    let child = DirEntry::new(
                        child_path,
                        entries[i].link_status,
                        clone_opt_string(&entries[i].link_target),
                    );
                    proof {
                        assert(child@ == scan_node(self.path@, es[i as int]));
                    }
                    insert_sorted(&mut children, child);
                }
            }
            i = i + 1;
        }
        self.children = children;
        self.is_loaded = false;
        proof {
            lemma_model_seq(self.children@);
        }
        if self.children.len() > 0 {
            Some(0)
        } else {
            None
        }
    }

    /// Hide this node's subtree: clear `expanded` here and on every
    /// descendant, keeping all loaded children.
    pub fn collapse_all(&mut self)
        ensures
            final(self)@ == old(self)@.collapsed(),
        decreases *old(self),
    {
        let ghost self0 = *self;
        self.expanded = false;
        let mut i: usize = 0;
        while i < self.children.len()
            invariant
                self0 == *old(self),
                self.children@.len() == self0.children@.len(),
                self.name == self0.name,
                self.path == self0.path,
                self.expanded == false,
                self.is_loaded == self0.is_loaded,
                self.link_status == self0.link_status,
                self.link_target == self0.link_target,
                i <= self.children@.len(),
                forall|k: int|
                    0 <= k < i ==> self.children@[k].model() == self0.children@[k].model().collapsed(),
                forall|k: int| i <= k < self.children@.len() ==> self.children@[k]
                    == self0.children@[k],
            decreases self.children@.len() - i,
        {
            let ghost pre = self.children@;
            let mut c = self.children.remove(i);
            proof {
                assert(decreases_to!(self0 => self0.children));
                assert(decreases_to!(self0.children => self0.children@));
                assert(decreases_to!(self0.children@ => self0.children@[i as int]));
                assert(c == self0.children@[i as int]);
                assert(decreases_to!(self0 => c));
            }
            c.collapse_all();
            self.children.insert(i, c);
            proof {
                assert forall|k: int| 0 <= k < pre.len() && k != i implies self.children@[k]
                    == pre[k] by {
                    assert(self.children@ =~= pre.remove(i as int).insert(i as int, c));
                }
                assert(self.children@[i as int] == c);
            }
            i = i + 1;
        }
        proof {
            lemma_model_seq(self.children@);
            lemma_model_seq(self0.children@);
            lemma_collapsed_seq(model_seq(self0.children@));
            assert(model_seq(self.children@) =~= collapsed_seq(model_seq(self0.children@)));
        }
    }
}

/// The nodes are in name order.
pub open spec fn sorted_names(s: Seq<NodeV>) -> bool {
    forall|i: int, j: int| 0 <= i < j < s.len() ==> seq_le(#[trigger] s[i].name, #[trigger] s[j].name)
}

/// No two nodes share a name.
pub open spec fn distinct_names(s: Seq<NodeV>) -> bool {
    forall|i: int, j: int| 0 <= i < j < s.len() ==> (#[trigger] s[i].name) != (#[trigger] s[j].name)
}

/// Some node of `s` is named `nm`.
pub open spec fn has_name(s: Seq<NodeV>, nm: Seq<char>) -> bool {
    exists|i: int| 0 <= i < s.len() && s[i].name == nm
}

proof fn lemma_insort_elems(s: Seq<NodeV>, x: NodeV)
    ensures
        insort(s, x).len() == s.len() + 1,
        forall|k: int|
            0 <= k < insort(s, x).len() ==> insort(s, x)[k] == x || s.contains(
                #[trigger] insort(s, x)[k],
            ),
        forall|nm: Seq<char>|
            #[trigger] has_name(insort(s, x), nm) == (has_name(s, nm) || nm == x.name),
    decreases s.len(),
{
    if s.len() > 0 && !seq_le(x.name, s[0].name) {
        lemma_insort_elems(s.drop_first(), x);
        let r = insort(s, x);
        assert forall|k: int| 0 <= k < r.len() implies r[k] == x || s.contains(#[trigger] r[k]) by {
            if k > 0 {
                let rr = insort(s.drop_first(), x);
                assert(r[k] == rr[k - 1]);
                if rr[k - 1] != x {
                    let j = choose|j: int|
                        0 <= j < s.drop_first().len() && s.drop_first()[j] == rr[k - 1];
                    assert(s[j + 1] == rr[k - 1]);
                }
            }
        }
        assert forall|nm: Seq<char>|
            #[trigger] has_name(r, nm) == (has_name(s, nm) || nm == x.name) by {
            let rr = insort(s.drop_first(), x);
            if has_name(r, nm) {
                let k = choose|k: int| 0 <= k < r.len() && r[k].name == nm;
                if k == 0 {
                    assert(s[0].name == nm);
                } else {
                    assert(rr[k - 1].name == nm);
                    if has_name(s.drop_first(), nm) {
                        let j = choose|j: int|
                            0 <= j < s.drop_first().len() && s.drop_first()[j].name == nm;
                        assert(s[j + 1].name == nm);
                    }
                }
            }
            if has_name(s, nm) {
                let k = choose|k: int| 0 <= k < s.len() && s[k].name == nm;
                if k == 0 {
                    assert(r[0].name == nm);
                } else {
                    assert(s.drop_first()[k - 1].name == nm);
                    assert(has_name(s.drop_first(), nm));
                    assert(has_name(rr, nm));
                    let j = choose|j: int| 0 <= j < rr.len() && rr[j].name == nm;
                    assert(r[j + 1].name == nm);
                }
            }
            if nm == x.name {
                assert(has_name(insort(s.drop_first(), x), nm));
                let j = choose|j: int| 0 <= j < rr.len() && rr[j].name == nm;
                assert(r[j + 1].name == nm);
            }
        }
    } else {
        assert forall|nm: Seq<char>|
            #[trigger] has_name(insort(s, x), nm) == (has_name(s, nm) || nm == x.name) by {
            let r = insort(s, x);
            if has_name(r, nm) {
                let k = choose|k: int| 0 <= k < r.len() && r[k].name == nm;
                if k > 0 {
                    assert(s[k - 1].name == nm);
                }
            }
            if has_name(s, nm) {
                let k = choose|k: int| 0 <= k < s.len() && s[k].name == nm;
                assert(r[k + 1].name == nm);
            }
            if nm == x.name {
                assert(r[0].name == nm);
            }
        }
    }
}

proof fn lemma_insort_sorted(s: Seq<NodeV>, x: NodeV)
    requires
        sorted_names(s),
    ensures
        sorted_names(insort(s, x)),
    decreases s.len(),
{
    let r = insort(s, x);
    if s.len() == 0 {
    } else if seq_le(x.name, s[0].name) {
        assert forall|i: int, j: int| 0 <= i < j < r.len() implies seq_le(
            #[trigger] r[i].name,
            #[trigger] r[j].name,
        ) by {
            if i == 0 && j > 1 {
                crate::text::lemma_seq_le_trans(x.name, s[0].name, s[j - 1].name);
            }
        }
    } else {
        assert(sorted_names(s.drop_first())) by {
            assert(forall|k: int|
                0 <= k < s.drop_first().len() ==> #[trigger] s.drop_first()[k] == s[k + 1]);
        }
        lemma_insort_sorted(s.drop_first(), x);
        lemma_insort_elems(s.drop_first(), x);
        let rr = insort(s.drop_first(), x);
        crate::text::lemma_seq_le_total(x.name, s[0].name);
        assert forall|i: int, j: int| 0 <= i < j < r.len() implies seq_le(
            #[trigger] r[i].name,
            #[trigger] r[j].name,
        ) by {
            if i == 0 {
                assert(r[j] == rr[j - 1]);
                if rr[j - 1] == x {
                } else {
                    let m = choose|m: int|
                        0 <= m < s.drop_first().len() && s.drop_first()[m] == rr[j - 1];
                    assert(s[m + 1] == rr[j - 1]);
                }
            } else {
                assert(r[i] == rr[i - 1] && r[j] == rr[j - 1]);
            }
        }
    }
}

proof fn lemma_insort_distinct(s: Seq<NodeV>, x: NodeV)
    requires
        distinct_names(s),
        !has_name(s, x.name),
    ensures
        distinct_names(insort(s, x)),
    decreases s.len(),
{
    let r = insort(s, x);
    if s.len() == 0 {
    } else if seq_le(x.name, s[0].name) {
        assert forall|i: int, j: int| 0 <= i < j < r.len() implies (#[trigger] r[i].name)
            != (#[trigger] r[j].name) by {
            if i == 0 {
                if r[j].name == x.name {
                    assert(s[j - 1].name == x.name);
                    assert(has_name(s, x.name));
                }
            }
        }
    } else {
        assert(distinct_names(s.drop_first())) by {
            assert(forall|k: int|
                0 <= k < s.drop_first().len() ==> #[trigger] s.drop_first()[k] == s[k + 1]);
        }
        assert(!has_name(s.drop_first(), x.name)) by {
            if has_name(s.drop_first(), x.name) {
                let k = choose|k: int|
                    0 <= k < s.drop_first().len() && s.drop_first()[k].name == x.name;
                assert(s[k + 1].name == x.name);
            }
        }
        lemma_insort_distinct(s.drop_first(), x);
        lemma_insort_elems(s.drop_first(), x);
        let rr = insort(s.drop_first(), x);
        assert forall|i: int, j: int| 0 <= i < j < r.len() implies (#[trigger] r[i].name)
            != (#[trigger] r[j].name) by {
            if i == 0 {
                assert(r[j] == rr[j - 1]);
                if rr[j - 1] == x {
                    if s[0].name == x.name {
                        assert(has_name(s, x.name));
                    }
                } else {
                    let m = choose|m: int|
                        0 <= m < s.drop_first().len() && s.drop_first()[m] == rr[j - 1];
                    assert(s[m + 1] == rr[j - 1]);
                }
            } else {
                assert(r[i] == rr[i - 1] && r[j] == rr[j - 1]);
            }
        }
    }
}

/// After any load the children are sorted by name.
pub proof fn lemma_load_fold_sorted(parent: Seq<char>, acc: Seq<NodeV>, es: Seq<ScanV>, i: int)
    requires
        sorted_names(acc),
    ensures
        sorted_names(load_fold(parent, acc, es, i)),
    decreases es.len() - i,
{
    if 0 <= i < es.len() {
        if es[i].is_dir {
            lemma_insort_sorted(acc, scan_node(parent, es[i]));
        }
        lemma_load_fold_sorted(
            parent,
            if es[i].is_dir {
                insort(acc, scan_node(parent, es[i]))
            } else {
                acc
            },
            es,
            i + 1,
        );
    }
}

/// As `lemma_load_fold_sorted`, for a priming load.
pub proof fn lemma_load_only_fold_sorted(
    parent: Seq<char>,
    target: Seq<char>,
    acc: Seq<NodeV>,
    es: Seq<ScanV>,
    i: int,
)
    requires
        sorted_names(acc),
    ensures
        sorted_names(load_only_fold(parent, target, acc, es, i)),
    decreases es.len() - i,
{
    if 0 <= i < es.len() {
        let keep = es[i].is_dir && crate::paths::is_path_prefix(
            crate::paths::join_path_spec(parent, es[i].name),
            target,
        );
        if keep {
            lemma_insort_sorted(acc, scan_node(parent, es[i]));
        }
        lemma_load_only_fold_sorted(
            parent,
            target,
            if keep {
                insort(acc, scan_node(parent, es[i]))
            } else {
                acc
            },
            es,
            i + 1,
        );
    }
}

/// A scan whose names are well formed and pairwise distinct — as any one
/// directory's listing is — loads into strictly sorted children: sorted by
/// name with no duplicate names.
pub proof fn lemma_load_fold_distinct(parent: Seq<char>, acc: Seq<NodeV>, es: Seq<ScanV>, i: int)
    requires
        distinct_names(acc),
        forall|j: int| 0 <= j < es.len() ==> crate::paths::valid_name(#[trigger] es[j].name),
        forall|j: int, k: int| 0 <= j < k < es.len() ==> (#[trigger] es[j].name) != (
        #[trigger] es[k].name),
        forall|j: int| i <= j < es.len() ==> !has_name(acc, #[trigger] es[j].name),
    ensures
        distinct_names(load_fold(parent, acc, es, i)),
    decreases es.len() - i,
{
    if 0 <= i < es.len() {
        if es[i].is_dir {
            let x = scan_node(parent, es[i]);
            crate::paths::lemma_name_of_join(parent, es[i].name);
            assert(x.name == es[i].name);
            lemma_insort_distinct(acc, x);
            lemma_insort_elems(acc, x);
            let acc2 = insort(acc, x);
            assert forall|j: int| i + 1 <= j < es.len() implies !has_name(
                acc2,
                #[trigger] es[j].name,
            ) by {
                assert(es[j].name != es[i].name);
            }
            lemma_load_fold_distinct(parent, acc2, es, i + 1);
        } else {
            lemma_load_fold_distinct(parent, acc, es, i + 1);
        }
    }
}

/// As `lemma_load_fold_distinct`, for a priming load.
pub proof fn lemma_load_only_fold_distinct(
    parent: Seq<char>,
    target: Seq<char>,
    acc: Seq<NodeV>,
    es: Seq<ScanV>,
    i: int,
)
    requires
        distinct_names(acc),
        forall|j: int| 0 <= j < es.len() ==> crate::paths::valid_name(#[trigger] es[j].name),
        forall|j: int, k: int| 0 <= j < k < es.len() ==> (#[trigger] es[j].name) != (
        #[trigger] es[k].name),
        forall|j: int| i <= j < es.len() ==> !has_name(acc, #[trigger] es[j].name),
    ensures
        distinct_names(load_only_fold(parent, target, acc, es, i)),
    decreases es.len() - i,
{
    if 0 <= i < es.len() {
        let keep = es[i].is_dir && crate::paths::is_path_prefix(
            crate::paths::join_path_spec(parent, es[i].name),
            target,
        );
        if keep {
            let x = scan_node(parent, es[i]);
            crate::paths::lemma_name_of_join(parent, es[i].name);
            lemma_insort_distinct(acc, x);
            lemma_insort_elems(acc, x);
            let acc2 = insort(acc, x);
            assert forall|j: int| i + 1 <= j < es.len() implies !has_name(
                acc2,
                #[trigger] es[j].name,
            ) by {
                assert(es[j].name != es[i].name);
            }
            lemma_load_only_fold_distinct(parent, target, acc2, es, i + 1);
        } else {
            lemma_load_only_fold_distinct(parent, target, acc, es, i + 1);
        }
    }
}

/// After any load — full or priming — the children are strictly sorted by
/// name and hold no duplicate names, provided the scan's names are well
/// formed and pairwise distinct, as any one directory's listing's are.
pub proof fn lemma_loads_strictly_sorted(parent: Seq<char>, target: Seq<char>, es: Seq<ScanV>)
    requires
        forall|j: int| 0 <= j < es.len() ==> crate::paths::valid_name(#[trigger] es[j].name),
        forall|j: int, k: int| 0 <= j < k < es.len() ==> (#[trigger] es[j].name) != (
        #[trigger] es[k].name),
    ensures
        sorted_names(loaded_children(parent, es)),
        distinct_names(loaded_children(parent, es)),
        sorted_names(only_children(parent, target, es)),
        distinct_names(only_children(parent, target, es)),
{
    lemma_load_fold_sorted(parent, Seq::empty(), es, 0);
    lemma_load_fold_distinct(parent, Seq::empty(), es, 0);
    lemma_load_only_fold_sorted(parent, target, Seq::empty(), es, 0);
    lemma_load_only_fold_distinct(parent, target, Seq::empty(), es, 0);
}

/// Loading is idempotent: once a load has marked a node loaded, any further
/// load, whatever its scan says, leaves the node exactly as it was.
pub proof fn lemma_load_idempotent(n: NodeV, e1: Seq<ScanV>, e2: Seq<ScanV>)
    ensures
        spec_load(spec_load(n, e1), e2) == spec_load(n, e1),
{
}

/// Collapsing a loaded node and then re-expanding it restores the identical
/// child sequence — same nodes, same names, same order — and the node stays
/// loaded throughout, so re-expansion triggers no new directory read: the
/// load after the expansion is a no-op, whatever scan is offered to it.
pub proof fn lemma_collapse_expand_roundtrip(n: NodeV, es: Seq<ScanV>)
    requires
        n.is_loaded,
    ensures
        ({
            let c = n.collapsed();
            let e = spec_load(NodeV { expanded: true, ..c }, es);
            &&& c.is_loaded
            &&& e.is_loaded
            &&& e.expanded
            &&& e.children == c.children
            &&& e.children.len() == n.children.len()
            &&& forall|i: int|
                0 <= i < n.children.len() ==> #[trigger] e.children[i] == n.children[
                    i
                ].collapsed()
            &&& forall|i: int|
                0 <= i < n.children.len() ==> #[trigger] e.children[i].name == n.children[i].name
        }),
{
    lemma_collapsed_seq(n.children);
}

/// Clone an optional string.
pub fn clone_opt_string(o: &Option<String>) -> (r: Option<String>)
    ensures
        opt_str_model(r) == opt_str_model(*o),
        r == *o,
{
    match o {
        Some(s) => Some(s.clone()),
        None => None,
    }
}

/// Insert `x` into a vector kept in `insort` order.
pub fn insert_sorted(v: &mut Vec<DirEntry>, x: DirEntry)
    ensures
        model_seq(final(v)@) == insort(model_seq(old(v)@), x@),
{
    let ghost s0 = model_seq(old(v)@);
    proof {
        lemma_model_seq(old(v)@);
    }
    let mut k: usize = 0;
    while k < v.len() && !str_le(x.name.as_str(), v[k].name.as_str())
        invariant
            k <= v@.len(),
            *v == *old(v),
            s0 == model_seq(v@),
            forall|j: int| 0 <= j < k ==> !seq_le(x@.name, s0[j].name),
        decreases v@.len() - k,
    {
        proof {
            lemma_model_seq(v@);
        }
        k = k + 1;
    }
    proof {
        lemma_model_seq(v@);
        lemma_insort_at(s0, x@, k as int);
    }
    v.insert(k, x);
    proof {
        lemma_model_seq(v@);
        lemma_model_seq(old(v)@);
        assert(model_seq(v@) =~= s0.insert(k as int, x@));
    }
}

} // verus!
