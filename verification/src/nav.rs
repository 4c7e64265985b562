use vstd::prelude::*;

use crate::flatten::{
    addr_eq, copy_addr, find_first, lemma_find_first_at, lemma_rows_valid, row_models, rows_of,
    walk, Row, RowV,
};
use crate::popup::{Popup, PopupV};
use crate::text::{is_graphic, is_graphic_exec, is_prefix_of, lower_char, lower_char_exec,
    lower_of, str_starts_with, to_lower_str};
use crate::tree::{
    lemma_model_seq, lemma_node_at_concat, lemma_node_at_push, lemma_node_at_replace, spec_load,
    spec_load_only, DirEntry, NodeV, ScanEntry,
};

verus! {

/// The navigator: the owned tree, the focus address, the scroll offset, the
/// popup, and the incremental-search state.
pub struct App {
    pub root: DirEntry,
    pub focus_path: Vec<usize>,
    pub scroll_offset: usize,
    pub popup: Popup,
    pub search_buffer: Vec<char>,
    pub last_input_ms: Option<u64>,
}

/// Model of the navigator state.
pub struct AppV {
    pub root: NodeV,
    pub focus: Seq<usize>,
    pub scroll: int,
    pub popup: PopupV,
    pub buffer: Seq<char>,
    pub last_input: Option<u64>,
}

impl View for App {
    type V = AppV;

    open spec fn view(&self) -> AppV {
        AppV {
            root: self.root@,
            focus: self.focus_path@,
            scroll: self.scroll_offset as int,
            popup: self.popup@,
            buffer: self.search_buffer@,
            last_input: self.last_input_ms,
        }
    }
}

/// The navigator's invariant: the focus address denotes a node of the tree.
pub open spec fn nav_wf(a: AppV) -> bool {
    a.root.node_at(a.focus) is Some
}

/// The node the focus denotes.
pub open spec fn focused_node(a: AppV) -> NodeV {
    a.root.node_at(a.focus).unwrap()
}

impl App {
    /// A fresh navigator over `root`, which starts expanded, focused on the
    /// root with no scroll, no popup and an empty search buffer.
    pub fn new(root: DirEntry) -> (r: App)
        ensures
            r@.root == (NodeV { expanded: true, ..root@ }),
            r@.focus == Seq::<usize>::empty(),
            r@.scroll == 0,
            r@.popup == (PopupV { visible: false, offset: 0 }),
            r@.buffer == Seq::<char>::empty(),
            r@.last_input is None,
            nav_wf(r@),
    {
        let mut root = root;
        root.expanded = true;
        App {
            root,
            focus_path: Vec::new(),
            scroll_offset: 0,
            popup: Popup::new(),
            search_buffer: Vec::new(),
            last_input_ms: None,
        }
    }

    /// The full flattened view of the tree, one row per visible node.
    pub fn rows(&self) -> (r: Vec<Row>)
        ensures
            row_models(r@) == rows_of(self@.root, Seq::<usize>::empty(), Seq::<char>::empty()),
    {
        let mut lines: Vec<Row> = Vec::new();
        walk(&self.root, "", &mut lines, Vec::new());
        proof {
            reveal_strlit("");
            assert(""@ =~= Seq::<char>::empty());
            assert(row_models(lines@) =~= rows_of(
                self@.root,
                Seq::<usize>::empty(),
                Seq::<char>::empty(),
            ));
        }
        lines
    }

    /// The absolute path of the focused directory.
    pub fn focused_path(&self) -> (r: String)
        requires
            nav_wf(self@),
        ensures
            r@ == focused_node(self@).path,
    {
        let node = node_ref_at(&self.root, &self.focus_path);
        node.path.clone()
    }

    /// The focused node is already loaded (so expanding needs no scan).
    pub fn focused_is_loaded(&self) -> (r: bool)
        requires
            nav_wf(self@),
        ensures
            r == focused_node(self@).is_loaded,
    {
        let node = node_ref_at(&self.root, &self.focus_path);
        node.is_loaded
    }

    /// The shell command the navigator emits for the focused directory.
    pub fn cd_command(&self) -> (r: String)
        requires
            nav_wf(self@),
        ensures
            r@ == "cd "@ + focused_node(self@).path,
    {
        let node = node_ref_at(&self.root, &self.focus_path);
        let mut s = String::new();
        s.append("cd ");
        s.append(node.path.as_str());
        s
    }

    /// The current focus address.
    pub fn focus(&self) -> (r: Vec<usize>)
        ensures
            r@ == self@.focus,
    {
        copy_addr(&self.focus_path)
    }

    /// The current scroll offset: the index of the topmost drawn row.
    pub fn scroll(&self) -> (r: usize)
        ensures
            r as int == self@.scroll,
    {
        self.scroll_offset
    }

    /// Load the focused node's children from a scan of its directory.
    pub fn load_focused(&mut self, entries: &Vec<ScanEntry>)
        requires
            nav_wf(old(self)@),
        ensures
            final(self)@ == (AppV {
                root: old(self)@.root.replace_at(
                    old(self)@.focus,
                    spec_load(focused_node(old(self)@), crate::tree::scan_models(entries@)),
                ),
                ..old(self)@
            }),
            nav_wf(final(self)@),
    {
        proof {
            assert(self.focus_path@.skip(0) =~= self.focus_path@);
        }
        load_at(&mut self.root, &self.focus_path, 0, entries);
        proof {
            lemma_node_at_replace(
                old(self)@.root,
                old(self)@.focus,
                spec_load(focused_node(old(self)@), crate::tree::scan_models(entries@)),
            );
        }
    }
}

/// `p + delta` clamped into `[0, len - 1]`.
pub open spec fn spec_clamp(p: int, delta: int, len: int) -> int {
    if p + delta < 0 {
        0
    } else if p + delta > len - 1 {
        len - 1
    } else {
        p + delta
    }
}

/// The scroll offset after keeping the focused row (at index `pos`) inside a
/// viewport of `height` rows with a two-row bottom margin.
pub open spec fn spec_sync(off: int, pos: int, height: int) -> int {
    let h3 = if height >= 3 {
        height - 3
    } else {
        0
    };
    if pos < off {
        pos
    } else if pos >= off + h3 {
        if pos >= h3 {
            pos - h3
        } else {
            0
        }
    } else {
        off
    }
}

/// The full flattened view of a tree.
pub open spec fn full_rows(a: AppV) -> Seq<RowV> {
    rows_of(a.root, Seq::<usize>::empty(), Seq::<char>::empty())
}

/// Where an address sits in a row list.
pub open spec fn row_index_of(rows: Seq<RowV>, addr: Seq<usize>) -> int {
    find_first(rows, |r: RowV| r.addr == addr)
}

/// Moving the focus by `delta` rows: locate the focus in the flattened view,
/// clamp the target index into range, adopt that row's address and keep it in
/// the viewport; a focus missing from the view moves nothing.
pub open spec fn spec_move_focus(a: AppV, delta: int, height: int) -> AppV {
    let rows = full_rows(a);
    let p = row_index_of(rows, a.focus);
    if p < 0 {
        a
    } else {
        let np = spec_clamp(p, delta, rows.len() as int);
        AppV { focus: rows[np].addr, scroll: spec_sync(a.scroll, np, height), ..a }
    }
}

impl App {
    /// Find the focused row in the current flattened view.
    fn find_focus_row(&self, rows: &Vec<Row>) -> (r: Option<usize>)
        ensures
            ({
                let p = row_index_of(row_models(rows@), self@.focus);
                if p >= 0 {
                    r == Some(p as usize)
                } else {
                    r is None
                }
            }),
    {
        let ghost pred = |rv: RowV| rv.addr == self@.focus;
        let mut k: usize = 0;
        while k < rows.len()
            invariant
                k <= rows@.len(),
                forall|j: int| 0 <= j < k ==> !pred(row_models(rows@)[j]),
                pred == (|rv: RowV| rv.addr == self@.focus),
            decreases rows@.len() - k,
        {
            if addr_eq(&rows[k].addr, &self.focus_path) {
                proof {
                    lemma_find_first_at(row_models(rows@), pred, k as int);
                }
                return Some(k);
            }
            k = k + 1;
        }
        proof {
            lemma_find_first_at(row_models(rows@), pred, rows@.len() as int);
        }
        None
    }

    /// Apply the viewport rule to the scroll offset for a focus at row `pos`.
    fn apply_sync(&mut self, pos: usize, height: usize)
        ensures
            *final(self) == (App { scroll_offset: final(self).scroll_offset, ..*old(self) }),
            final(self).scroll_offset as int == spec_sync(
                old(self)@.scroll,
                pos as int,
                height as int,
            ),
    {
        let h3 = if height >= 3 {
            height - 3
        } else {
            0
        };
        if pos < self.scroll_offset {
            self.scroll_offset = pos;
        } else if pos - self.scroll_offset >= h3 {
            self.scroll_offset = if pos >= h3 {
                pos - h3
            } else {
                0
            };
        }
    }

    /// Move the focus `direction` rows through the flattened view, clamped to
    /// its ends, and keep it visible.
    pub fn move_focus(&mut self, direction: isize, height: usize)
        ensures
            final(self)@ == spec_move_focus(old(self)@, direction as int, height as int),
            nav_wf(old(self)@) ==> nav_wf(final(self)@),
    {
        let rows = self.rows();
        let found = self.find_focus_row(&rows);
        match found {
            None => {
                proof {
                    assert(final(self)@ =~= spec_move_focus(
                        old(self)@,
                        direction as int,
                        height as int,
                    ));
                }
            },
            Some(pos) => {
                let len = rows.len();
                proof {
                    crate::flatten::lemma_find_first_props(
                        row_models(rows@),
                        |rv: RowV| rv.addr == self@.focus,
                    );
                    assert(len >= 1);
                }
                let target: i128 = pos as i128 + direction as i128;
                let np: usize = if target < 0 {
                    0
                } else if target > len as i128 - 1 {
                    len - 1
                } else {
                    target as usize
                };
                proof {
                    assert(np as int == spec_clamp(
                        pos as int,
                        direction as int,
                        rows@.len() as int,
                    ));
                }
                self.focus_path = copy_addr(&rows[np].addr);
                self.apply_sync(np, height);
                proof {
                    if nav_wf(old(self)@) {
                        lemma_rows_valid(
                            old(self)@.root,
                            old(self)@.root,
                            Seq::<usize>::empty(),
                            Seq::<char>::empty(),
                        );
                    }
                    assert(final(self)@ =~= spec_move_focus(
                        old(self)@,
                        direction as int,
                        height as int,
                    ));
                }
            },
        }
    }

    /// Re-clamp the scroll offset so the focused row stays in a viewport of
    /// `height` rows; a focus missing from the view changes nothing.
    pub fn sync_scroll(&mut self, height: usize)
        ensures
            final(self)@ == (AppV {
                scroll: ({
                    let p = row_index_of(full_rows(old(self)@), old(self)@.focus);
                    if p >= 0 {
                        spec_sync(old(self)@.scroll, p, height as int)
                    } else {
                        old(self)@.scroll
                    }
                }),
                ..old(self)@
            }),
    {
        let rows = self.rows();
        let found = self.find_focus_row(&rows);
        match found {
            None => {
                proof {
                    assert(final(self)@ =~= old(self)@);
                }
            },
            Some(pos) => {
                proof {
                    crate::flatten::lemma_find_first_props(
                        row_models(rows@),
                        |rv: RowV| rv.addr == self@.focus,
                    );
                    let p = row_index_of(full_rows(old(self)@), old(self)@.focus);
                    assert(p >= 0 && pos as int == p);
                }
                self.apply_sync(pos, height);
                proof {
                    assert(final(self)@ =~= (AppV {
                        scroll: spec_sync(
                            old(self)@.scroll,
                            row_index_of(full_rows(old(self)@), old(self)@.focus),
                            height as int,
                        ),
                        ..old(self)@
                    }));
                }
            },
        }
    }

    /// One priming step toward `target`: load only the path-continuing
    /// children of the focused node, and when one was retained, expand it and
    /// descend into it. Reports whether the chain continued.
    pub fn prime_step(&mut self, target: &str, entries: &Vec<ScanEntry>) -> (found: bool)
        requires
            nav_wf(old(self)@),
        ensures
            ({
                let loaded = spec_load_only(
                    focused_node(old(self)@),
                    target@,
                    crate::tree::scan_models(entries@),
                );
                let root1 = old(self)@.root.replace_at(old(self)@.focus, loaded);
                &&& found == (loaded.children.len() > 0)
                &&& final(self)@ == if found {
                    AppV {
                        root: root1.replace_at(
                            old(self)@.focus.push(0),
                            NodeV { expanded: true, ..loaded.children[0] },
                        ),
                        focus: old(self)@.focus.push(0),
                        ..old(self)@
                    }
                } else {
                    AppV { root: root1, ..old(self)@ }
                }
            }),
            nav_wf(final(self)@),
    {
        proof {
            assert(self.focus_path@.skip(0) =~= self.focus_path@);
        }
        let r = load_only_at(&mut self.root, &self.focus_path, 0, target, entries);
        proof {
            lemma_node_at_replace(
                old(self)@.root,
                old(self)@.focus,
                spec_load_only(
                    focused_node(old(self)@),
                    target@,
                    crate::tree::scan_models(entries@),
                ),
            );
        }
        match r {
            None => false,
            Some(_) => {
                self.focus_path.push(0);
                proof {
                    let loaded = spec_load_only(
                        focused_node(old(self)@),
                        target@,
                        crate::tree::scan_models(entries@),
                    );
                    let root1 = old(self)@.root.replace_at(old(self)@.focus, loaded);
                    lemma_node_at_push(root1, old(self)@.focus, loaded, 0);
                    assert(self.focus_path@ =~= old(self)@.focus.push(0));
                }
                proof {
                    assert(self.focus_path@.skip(0) =~= self.focus_path@);
                }
                expand_at(&mut self.root, &self.focus_path, 0);
                proof {
                    let loaded = spec_load_only(
                        focused_node(old(self)@),
                        target@,
                        crate::tree::scan_models(entries@),
                    );
                    let root1 = old(self)@.root.replace_at(old(self)@.focus, loaded);
                    lemma_node_at_replace(
                        root1,
                        old(self)@.focus.push(0),
                        NodeV { expanded: true, ..loaded.children[0] },
                    );
                }
                true
            },
        }
    }

    /// The last priming step: fully load the focused node, then find the
    /// child on the chain to `target`, expand it and descend into it.
    pub fn prime_last(&mut self, target: &str, entries: &Vec<ScanEntry>)
        requires
            nav_wf(old(self)@),
        ensures
            ({
                let loaded = spec_load(focused_node(old(self)@), crate::tree::scan_models(entries@));
                let root1 = old(self)@.root.replace_at(old(self)@.focus, loaded);
                let m = find_first(
                    loaded.children,
                    |c: NodeV| crate::paths::is_path_prefix(c.path, target@),
                );
                final(self)@ == if m >= 0 {
                    AppV {
                        root: root1.replace_at(
                            old(self)@.focus.push(m as usize),
                            NodeV { expanded: true, ..loaded.children[m] },
                        ),
                        focus: old(self)@.focus.push(m as usize),
                        ..old(self)@
                    }
                } else {
                    AppV { root: root1, ..old(self)@ }
                }
            }),
            nav_wf(final(self)@),
    {
        proof {
            assert(self.focus_path@.skip(0) =~= self.focus_path@);
        }
        load_at(&mut self.root, &self.focus_path, 0, entries);
        let ghost loaded = spec_load(focused_node(old(self)@), crate::tree::scan_models(entries@));
        proof {
            lemma_node_at_replace(old(self)@.root, old(self)@.focus, loaded);
        }
        let node = node_ref_at(&self.root, &self.focus_path);
        let ghost pred = |c: NodeV| crate::paths::is_path_prefix(c.path, target@);
        let n = node.children.len();
        let mut k: usize = 0;
        let mut hit: Option<usize> = None;
        proof {
            lemma_model_seq(node.children@);
        }
        while k < n
            invariant
                k <= n,
                nav_wf(self@),
                self@ == (AppV {
                    root: old(self)@.root.replace_at(old(self)@.focus, loaded),
                    ..old(self)@
                }),
                n == loaded.children.len(),
                focused_node(self@) == loaded,
                pred == (|c: NodeV| crate::paths::is_path_prefix(c.path, target@)),
                hit is None ==> forall|j: int| 0 <= j < k ==> !pred(loaded.children[j]),
                match hit {
                    Some(h) => h < n && pred(loaded.children[h as int]) && (forall|j: int|
                        0 <= j < h ==> !pred(loaded.children[j])),
                    None => true,
                },
            decreases n - k,
        {
            if hit.is_none() {
                let node = node_ref_at(&self.root, &self.focus_path);
                proof {
                    lemma_model_seq(node.children@);
                }
                if crate::paths::path_prefix(node.children[k].path.as_str(), target) {
                    hit = Some(k);
                }
            }
            k = k + 1;
        }
        match hit {
            None => {
                proof {
                    lemma_find_first_at(loaded.children, pred, n as int);
                }
            },
            Some(m) => {
                proof {
                    lemma_find_first_at(loaded.children, pred, m as int);
                }
                self.focus_path.push(m);
                proof {
                    let root1 = old(self)@.root.replace_at(old(self)@.focus, loaded);
                    lemma_node_at_push(root1, old(self)@.focus, loaded, m);
                    assert(self.focus_path@ =~= old(self)@.focus.push(m));
                    assert(self.focus_path@.skip(0) =~= self.focus_path@);
                }
                expand_at(&mut self.root, &self.focus_path, 0);
                proof {
                    let root1 = old(self)@.root.replace_at(old(self)@.focus, loaded);
                    lemma_node_at_replace(
                        root1,
                        old(self)@.focus.push(m),
                        NodeV { expanded: true, ..loaded.children[m as int] },
                    );
                }
            },
        }
    }
}

/// A classified input event, as the terminal layer reports it.
#[derive(Clone, Copy, Debug, PartialEq, Eq, Structural)]
pub enum NavEvent {
    Up,
    Down,
    Expand,
    Collapse,
    Select,
    Quit,
    TogglePopup,
    Esc,
    Char(char),
    Other,
}

/// What the caller must do after an event was handled.
pub enum Action {
    /// Nothing; redraw as usual.
    Nothing,
    /// Exit without printing anything.
    Quit,
    /// Print this line and exit.
    Emit(String),
    /// Scan the focused directory and hand the entries to `load_focused`.
    ScanFocused,
    /// Count the focused directory's entries and call `popup_scroll_down`.
    PopupCount,
}

/// Model of an action.
pub enum ActV {
    Nothing,
    Quit,
    Emit(Seq<char>),
    ScanFocused,
    PopupCount,
}

impl View for Action {
    type V = ActV;

    open spec fn view(&self) -> ActV {
        match self {
            Action::Nothing => ActV::Nothing,
            Action::Quit => ActV::Quit,
            Action::Emit(s) => ActV::Emit(s@),
            Action::ScanFocused => ActV::ScanFocused,
            Action::PopupCount => ActV::PopupCount,
        }
    }
}

/// The index of the first sibling other than `skip` whose lowercased name
/// starts with `q`, or -1.
pub open spec fn sib_match(parent: NodeV, skip: int, q: Seq<char>, i: int) -> int
    decreases parent.children.len() - i,
{
    if i < 0 || i >= parent.children.len() || i >= usize::MAX as int {
        -1
    } else if i != skip && is_prefix_of(q, lower_of(parent.children[i].name)) {
        i
    } else {
        sib_match(parent, skip, q, i + 1)
    }
}

proof fn lemma_sib_match_at(parent: NodeV, skip: int, q: Seq<char>, h: int)
    requires
        0 <= h <= parent.children.len(),
        parent.children.len() <= usize::MAX,
        forall|j: int|
            0 <= j < h ==> j == skip || !is_prefix_of(q, lower_of(parent.children[j].name)),
        h < parent.children.len() ==> h != skip && is_prefix_of(
            q,
            lower_of(parent.children[h].name),
        ),
    ensures
        sib_match(parent, skip, q, 0) == if h < parent.children.len() {
            h
        } else {
            -1
        },
{
    lemma_sib_match_from(parent, skip, q, h, 0);
}

proof fn lemma_sib_match_from(parent: NodeV, skip: int, q: Seq<char>, h: int, i: int)
    requires
        0 <= i <= h <= parent.children.len(),
        parent.children.len() <= usize::MAX,
        forall|j: int|
            0 <= j < h ==> j == skip || !is_prefix_of(q, lower_of(parent.children[j].name)),
        h < parent.children.len() ==> h != skip && is_prefix_of(
            q,
            lower_of(parent.children[h].name),
        ),
    ensures
        sib_match(parent, skip, q, i) == if h < parent.children.len() {
            h
        } else {
            -1
        },
    decreases parent.children.len() - i,
{
    if i < parent.children.len() && i < h {
        lemma_sib_match_from(parent, skip, q, h, i + 1);
    }
}

/// The buffer after one keystroke: cleared first when more than a second
/// passed since the previous one, then extended by the lowercased character.
pub open spec fn next_buffer(a: AppV, c: char, now: u64) -> Seq<char> {
    let keep = match a.last_input {
        Some(l) => (if now >= l {
            now - l
        } else {
            0
        }) <= 1000,
        None => true,
    };
    (if keep {
        a.buffer
    } else {
        Seq::empty()
    }).push(lower_char(c))
}

/// Incremental search: append the lowercased character to the (possibly
/// expired) buffer, then move the focus to the first candidate whose
/// lowercased name starts with the buffer. Candidates are the visible rows of
/// the focused node's subtree, in order, then its siblings in order; no match
/// leaves the focus alone.
pub open spec fn spec_jump(a: AppV, c: char, now: u64) -> AppV {
    let buf = next_buffer(a, c, now);
    let a1 = AppV { buffer: buf, last_input: Some(now), ..a };
    let rows = rows_of(focused_node(a), a.focus, Seq::<char>::empty());
    let m1 = find_first(rows, |r: RowV| is_prefix_of(buf, lower_of(r.name)));
    if m1 >= 0 {
        AppV { focus: rows[m1].addr, ..a1 }
    } else if a.focus.len() > 0 {
        let parent = a.root.node_at(a.focus.drop_last()).unwrap();
        let m2 = sib_match(parent, a.focus.last() as int, buf, 0);
        if m2 >= 0 {
            AppV { focus: a.focus.drop_last().push(m2 as usize), ..a1 }
        } else {
            a1
        }
    } else {
        a1
    }
}

impl App {
    /// Handle one search keystroke.
    pub fn jump_to_char(&mut self, c: char, now_ms: u64)
        requires
            nav_wf(old(self)@),
        ensures
            final(self)@ == spec_jump(old(self)@, c, now_ms),
            nav_wf(final(self)@),
    {
        match self.last_input_ms {
            Some(l) => {
                let e = if now_ms >= l {
                    now_ms - l
                } else {
                    0
                };
                if e > 1000 {
                    self.search_buffer = Vec::new();
                }
            },
            None => {},
        }
        self.search_buffer.push(lower_char_exec(c));
        self.last_input_ms = Some(now_ms);
        let ghost buf = next_buffer(old(self)@, c, now_ms);
        proof {
            assert(self.search_buffer@ =~= buf);
        }
        let mut rows: Vec<Row> = Vec::new();
        let node = node_ref_at(&self.root, &self.focus_path);
        walk(node, "", &mut rows, copy_addr(&self.focus_path));
        let ghost subtree = rows_of(focused_node(old(self)@), old(self)@.focus, Seq::<char>::empty());
        proof {
            reveal_strlit("");
            assert(""@ =~= Seq::<char>::empty());
            assert(row_models(rows@) =~= subtree);
        }
        let ghost pred = |r: RowV| is_prefix_of(buf, lower_of(r.name));
        let mut hit: Option<usize> = None;
        let mut k: usize = 0;
        while k < rows.len()
            invariant
                k <= rows@.len(),
                buf == self.search_buffer@,
                subtree == row_models(rows@),
                pred == (|r: RowV| is_prefix_of(buf, lower_of(r.name))),
                hit is None ==> forall|j: int| 0 <= j < k ==> !pred(subtree[j]),
                match hit {
                    Some(h) => h < rows@.len() && pred(subtree[h as int]) && (forall|j: int|
                        0 <= j < h ==> !pred(subtree[j])),
                    None => true,
                },
            decreases rows@.len() - k,
        {
            if hit.is_none() {
                let low = to_lower_str(rows[k].name.as_str());
                if str_starts_with(low.as_str(), &self.search_buffer) {
                    hit = Some(k);
                }
            }
            k = k + 1;
        }
        match hit {
            Some(h) => {
                proof {
                    lemma_find_first_at(subtree, pred, h as int);
                }
                self.focus_path = copy_addr(&rows[h].addr);
                proof {
                    lemma_rows_valid(
                        old(self)@.root,
                        focused_node(old(self)@),
                        old(self)@.focus,
                        Seq::<char>::empty(),
                    );
                    assert(final(self)@ =~= spec_jump(old(self)@, c, now_ms));
                }
            },
            None => {
                proof {
                    lemma_find_first_at(subtree, pred, subtree.len() as int);
                }
                if self.focus_path.len() == 0 {
                    proof {
                        assert(final(self)@ =~= spec_jump(old(self)@, c, now_ms));
                    }
                    return ;
                }
                let mut pa = copy_addr(&self.focus_path);
                let skip_idx: usize = match pa.pop() {
                    Some(x) => x,
                    None => 0,
                };
                proof {
                    assert(pa@ =~= old(self)@.focus.drop_last());
                    assert(old(self)@.focus =~= pa@ + seq![skip_idx]);
                    lemma_node_at_concat(old(self)@.root, pa@, seq![skip_idx]);
                }
                let parent = node_ref_at(&self.root, &pa);
                let ghost par = old(self)@.root.node_at(old(self)@.focus.drop_last()).unwrap();
                let n = parent.children.len();
                proof {
                    lemma_model_seq(parent.children@);
                }
                let mut hit2: Option<usize> = None;
                let mut j: usize = 0;
                while j < n
                    invariant
                        j <= n,
                        buf == self.search_buffer@,
                        self@ == (AppV {
                            buffer: buf,
                            last_input: Some(now_ms),
                            ..old(self)@
                        }),
                        nav_wf(self@),
                        old(self)@.root.node_at(pa@) == Some(par),
                        pa@ == old(self)@.focus.drop_last(),
                        skip_idx as int == old(self)@.focus.last() as int,
                        n == par.children.len(),
                        hit2 is None ==> forall|i2: int|
                            0 <= i2 < j ==> i2 == skip_idx as int || !is_prefix_of(
                                buf,
                                lower_of(par.children[i2].name),
                            ),
                        match hit2 {
                            Some(h) => h < n && h != skip_idx && is_prefix_of(
                                buf,
                                lower_of(par.children[h as int].name),
                            ) && (forall|i2: int|
                                0 <= i2 < h ==> i2 == skip_idx as int || !is_prefix_of(
                                    buf,
                                    lower_of(par.children[i2].name),
                                )),
                            None => true,
                        },
                    decreases n - j,
                {
                    if hit2.is_none() && j != skip_idx {
                        let parent = node_ref_at(&self.root, &pa);
                        proof {
                            lemma_model_seq(parent.children@);
                        }
                        let low = to_lower_str(parent.children[j].name.as_str());
                        if str_starts_with(low.as_str(), &self.search_buffer) {
                            hit2 = Some(j);
                        }
                    }
                    j = j + 1;
                }
                match hit2 {
                    Some(h) => {
                        proof {
                            lemma_sib_match_at(par, skip_idx as int, buf, h as int);
                        }
                        pa.push(h);
                        self.focus_path = pa;
                        proof {
                            lemma_node_at_push(
                                old(self)@.root,
                                old(self)@.focus.drop_last(),
                                par,
                                h,
                            );
                            assert(final(self)@ =~= spec_jump(old(self)@, c, now_ms));
                        }
                    },
                    None => {
                        proof {
                            lemma_sib_match_at(par, skip_idx as int, buf, n as int);
                            assert(final(self)@ =~= spec_jump(old(self)@, c, now_ms));
                        }
                    },
                }
            },
        }
    }
}

/// The state after hiding the popup.
pub open spec fn popup_hidden(a: AppV) -> AppV {
    AppV { popup: PopupV { visible: false, offset: 0 }, ..a }
}

/// The state after scrolling the popup one row up.
pub open spec fn popup_up(a: AppV) -> AppV {
    AppV {
        popup: PopupV {
            visible: a.popup.visible,
            offset: if a.popup.offset > 0 {
                a.popup.offset - 1
            } else {
                0
            },
        },
        ..a
    }
}

/// How one classified event changes the navigator, and what the caller must
/// then do. A visible popup captures every key: close keys hide it and the
/// navigation keys scroll it. Otherwise quitting and selecting end the
/// session, arrows move the focus, expand and collapse act on the focused
/// node (collapsing an already collapsed node ascends to its parent), and a
/// printable character extends the incremental search.
pub open spec fn spec_handle(a: AppV, ev: NavEvent, height: int, now: u64) -> (AppV, ActV) {
    if a.popup.visible {
        match ev {
            NavEvent::Quit => (popup_hidden(a), ActV::Nothing),
            NavEvent::TogglePopup => (popup_hidden(a), ActV::Nothing),
            NavEvent::Esc => (popup_hidden(a), ActV::Nothing),
            NavEvent::Char(ch) => if ch == 'q' || ch == 'f' {
                (popup_hidden(a), ActV::Nothing)
            } else if ch == 'j' {
                (a, ActV::PopupCount)
            } else if ch == 'k' {
                (popup_up(a), ActV::Nothing)
            } else {
                (a, ActV::Nothing)
            },
            NavEvent::Down => (a, ActV::PopupCount),
            NavEvent::Up => (popup_up(a), ActV::Nothing),
            _ => (a, ActV::Nothing),
        }
    } else {
        match ev {
            NavEvent::Quit => (a, ActV::Quit),
            NavEvent::TogglePopup => (
                AppV {
                    popup: PopupV {
                        visible: !a.popup.visible,
                        offset: if !a.popup.visible {
                            a.popup.offset
                        } else {
                            0
                        },
                    },
                    ..a
                },
                ActV::Nothing,
            ),
            NavEvent::Select => (a, ActV::Emit("cd "@ + focused_node(a).path)),
            NavEvent::Up => (spec_move_focus(a, -1, height), ActV::Nothing),
            NavEvent::Down => (spec_move_focus(a, 1, height), ActV::Nothing),
            NavEvent::Expand => {
                let n = focused_node(a);
                (
                    AppV { root: a.root.replace_at(a.focus, NodeV { expanded: true, ..n }), ..a },
                    if n.is_loaded {
                        ActV::Nothing
                    } else {
                        ActV::ScanFocused
                    },
                )
            },
            NavEvent::Collapse => {
                let n = focused_node(a);
                if n.expanded {
                    (AppV { root: a.root.replace_at(a.focus, n.collapsed()), ..a }, ActV::Nothing)
                } else {
                    let f2 = if a.focus.len() > 0 {
                        a.focus.drop_last()
                    } else {
                        a.focus
                    };
                    let m = a.root.node_at(f2).unwrap();
                    (
                        AppV { focus: f2, ..a },
                        if m.is_loaded {
                            ActV::Nothing
                        } else {
                            ActV::ScanFocused
                        },
                    )
                }
            },
            NavEvent::Char(ch) => if is_graphic(ch) {
                (spec_jump(a, ch, now), ActV::Nothing)
            } else {
                (a, ActV::Nothing)
            },
            _ => (a, ActV::Nothing),
        }
    }
}

impl App {
    /// Handle one classified input event; `height` is the viewport height in
    /// rows and `now_ms` a monotonic timestamp for the search timeout.
    pub fn handle_event(&mut self, ev: NavEvent, height: usize, now_ms: u64) -> (r: Action)
        requires
            nav_wf(old(self)@),
        ensures
            final(self)@ == spec_handle(old(self)@, ev, height as int, now_ms).0,
            r@ == spec_handle(old(self)@, ev, height as int, now_ms).1,
            nav_wf(final(self)@),
    {
        if self.popup.visible {
            match ev {
                NavEvent::Quit | NavEvent::TogglePopup | NavEvent::Esc => {
                    self.popup.dismiss();
                    proof {
                        assert(final(self)@ =~= popup_hidden(old(self)@));
                    }
                    Action::Nothing
                },
                NavEvent::Char(ch) => {
                    if ch == 'q' || ch == 'f' {
                        self.popup.dismiss();
                        proof {
                            assert(final(self)@ =~= popup_hidden(old(self)@));
                        }
                        Action::Nothing
                    } else if ch == 'j' {
                        Action::PopupCount
                    } else if ch == 'k' {
                        self.popup.scroll_up();
                        proof {
                            assert(final(self)@ =~= popup_up(old(self)@));
                        }
                        Action::Nothing
                    } else {
                        Action::Nothing
                    }
                },
                NavEvent::Down => Action::PopupCount,
                NavEvent::Up => {
                    self.popup.scroll_up();
                    proof {
                        assert(final(self)@ =~= popup_up(old(self)@));
                    }
                    Action::Nothing
                },
                _ => Action::Nothing,
            }
        } else {
            match ev {
                NavEvent::Quit => Action::Quit,
                NavEvent::TogglePopup => {
                    self.popup.toggle();
                    proof {
                        assert(final(self)@ =~= spec_handle(
                            old(self)@,
                            ev,
                            height as int,
                            now_ms,
                        ).0);
                    }
                    Action::Nothing
                },
                NavEvent::Select => Action::Emit(self.cd_command()),
                NavEvent::Up => {
                    self.move_focus(-1, height);
                    Action::Nothing
                },
                NavEvent::Down => {
                    self.move_focus(1, height);
                    Action::Nothing
                },
                NavEvent::Expand => {
                    let loaded = self.focused_is_loaded();
                    proof {
                        assert(self.focus_path@.skip(0) =~= self.focus_path@);
                    }
                    expand_at(&mut self.root, &self.focus_path, 0);
                    proof {
                        lemma_node_at_replace(
                            old(self)@.root,
                            old(self)@.focus,
                            NodeV { expanded: true, ..focused_node(old(self)@) },
                        );
                        assert(final(self)@ =~= spec_handle(
                            old(self)@,
                            ev,
                            height as int,
                            now_ms,
                        ).0);
                    }
                    if loaded {
                        Action::Nothing
                    } else {
                        Action::ScanFocused
                    }
                },
                NavEvent::Collapse => {
                    let node = node_ref_at(&self.root, &self.focus_path);
                    if node.expanded {
                        proof {
                            assert(self.focus_path@.skip(0) =~= self.focus_path@);
                        }
                        collapse_at(&mut self.root, &self.focus_path, 0);
                        proof {
                            lemma_node_at_replace(
                                old(self)@.root,
                                old(self)@.focus,
                                focused_node(old(self)@).collapsed(),
                            );
                            assert(final(self)@ =~= spec_handle(
                                old(self)@,
                                ev,
                                height as int,
                                now_ms,
                            ).0);
                        }
                        Action::Nothing
                    } else {
                        if self.focus_path.len() > 0 {
                            let ghost f0 = self.focus_path@;
                            self.focus_path.pop();
                            proof {
                                assert(f0 =~= self.focus_path@ + seq![f0.last()]);
                                lemma_node_at_concat(
                                    old(self)@.root,
                                    self.focus_path@,
                                    seq![f0.last()],
                                );
                            }
                        }
                        proof {
                            assert(final(self)@ =~= spec_handle(
                                old(self)@,
                                ev,
                                height as int,
                                now_ms,
                            ).0);
                        }
                        if self.focused_is_loaded() {
                            Action::Nothing
                        } else {
                            Action::ScanFocused
                        }
                    }
                },
                NavEvent::Char(ch) => {
                    if is_graphic_exec(ch) {
                        self.jump_to_char(ch, now_ms);
                        Action::Nothing
                    } else {
                        Action::Nothing
                    }
                },
                _ => Action::Nothing,
            }
        }
    }

    /// Scroll the popup one row down against a listing of `total` rows, with
    /// the popup's viewport derived from the terminal height.
    pub fn popup_scroll_down(&mut self, total: usize, height: usize)
        ensures
            final(self)@ == (AppV {
                popup: PopupV {
                    visible: old(self)@.popup.visible,
                    offset: ({
                        let vh = if height as int / 2 >= 2 {
                            height as int / 2 - 2
                        } else {
                            0
                        };
                        if old(self)@.popup.offset + vh < total {
                            old(self)@.popup.offset + 1
                        } else {
                            old(self)@.popup.offset
                        }
                    }),
                },
                ..old(self)@
            }),
    {
        let vh = if height / 2 >= 2 {
            height / 2 - 2
        } else {
            0
        };
        self.popup.scroll_down(total, vh);
        proof {
            assert(final(self)@ =~= (AppV {
                popup: PopupV {
                    visible: old(self)@.popup.visible,
                    offset: final(self)@.popup.offset,
                },
                ..old(self)@
            }));
        }
    }
}

/// The flattened view is complete and sound: it holds a row for an address
/// exactly when the address denotes a node of the tree all of whose ancestors
/// are expanded.
pub proof fn lemma_view_shows_exactly_the_visible(a: AppV, addr: Seq<usize>)
    requires
        crate::flatten::bounded(a.root),
    ensures
        crate::flatten::has_addr(full_rows(a), addr) <==> crate::flatten::visible_at(a.root, addr),
{
    assert(Seq::<usize>::empty() + addr =~= addr);
    crate::flatten::lemma_row_iff_visible(a.root, Seq::<usize>::empty(), Seq::<char>::empty(), addr);
}

/// The state after `k` repeated focus moves by `delta`.
pub open spec fn iter_move(a: AppV, delta: int, height: int, k: nat) -> AppV
    decreases k,
{
    if k == 0 {
        a
    } else {
        spec_move_focus(iter_move(a, delta, height, (k - 1) as nat), delta, height)
    }
}

/// One move from row `i` of the flattened view lands on row
/// `clamp(i + delta)` and leaves the tree alone.
pub proof fn lemma_move_step(a: AppV, i: int, delta: int, height: int)
    requires
        0 <= i < full_rows(a).len(),
        a.focus == full_rows(a)[i].addr,
    ensures
        spec_move_focus(a, delta, height).root == a.root,
        spec_move_focus(a, delta, height).focus == full_rows(a)[spec_clamp(
            i,
            delta,
            full_rows(a).len() as int,
        )].addr,
{
    let rows = full_rows(a);
    crate::flatten::lemma_rows_distinct(a.root, Seq::<usize>::empty(), Seq::<char>::empty());
    let pred = |r: RowV| r.addr == a.focus;
    assert forall|k: int| 0 <= k < i implies !pred(rows[k]) by {
        assert(rows[k].addr != rows[i].addr);
    }
    lemma_find_first_at(rows, pred, i);
}

/// Moving the focus down is total: starting from the first row, `k` downward
/// moves land on row `min(k, rowCount - 1)`, so `rowCount - 1` moves reach
/// the last row and any further downward move stays there.
pub proof fn lemma_move_down_total(a: AppV, height: int, k: nat)
    requires
        full_rows(a).len() > 0,
        a.focus == full_rows(a)[0].addr,
    ensures
        iter_move(a, 1, height, k).root == a.root,
        iter_move(a, 1, height, k).focus == full_rows(a)[if k < full_rows(a).len() {
            k as int
        } else {
            full_rows(a).len() - 1
        }].addr,
    decreases k,
{
    if k > 0 {
        lemma_move_down_total(a, height, (k - 1) as nat);
        let b = iter_move(a, 1, height, (k - 1) as nat);
        let m: int = if k - 1 < full_rows(a).len() {
            k - 1
        } else {
            full_rows(a).len() - 1
        };
        assert(full_rows(b) == full_rows(a));
        lemma_move_step(b, m, 1, height);
    }
}

/// Moving the focus up is total: starting from the last row, `k` upward
/// moves land on row `max(rowCount - 1 - k, 0)`, so `rowCount - 1` moves
/// reach the first row and any further upward move stays there.
pub proof fn lemma_move_up_total(a: AppV, height: int, k: nat)
    requires
        full_rows(a).len() > 0,
        a.focus == full_rows(a)[full_rows(a).len() - 1].addr,
    ensures
        iter_move(a, -1, height, k).root == a.root,
        iter_move(a, -1, height, k).focus == full_rows(a)[if full_rows(a).len() - 1 - k >= 0 {
            full_rows(a).len() - 1 - k
        } else {
            0
        }].addr,
    decreases k,
{
    if k > 0 {
        lemma_move_up_total(a, height, (k - 1) as nat);
        let b = iter_move(a, -1, height, (k - 1) as nat);
        let m: int = if full_rows(a).len() - 1 - (k - 1) >= 0 {
            full_rows(a).len() - (k - 1) - 1
        } else {
            0
        };
        assert(full_rows(b) == full_rows(a));
        lemma_move_step(b, m, -1, height);
    }
}

/// A reference to the node at `addr`.
pub fn node_ref_at<'a>(root: &'a DirEntry, addr: &Vec<usize>) -> (r: &'a DirEntry)
    requires
        root@.node_at(addr@) is Some,
    ensures
        r@ == root@.node_at(addr@).unwrap(),
{
    let mut cur: &'a DirEntry = root;
    let mut i: usize = 0;
    proof {
        assert(addr@.take(0) =~= Seq::<usize>::empty());
    }
    while i < addr.len()
        invariant
            i <= addr@.len(),
            root@.node_at(addr@) is Some,
            root@.node_at(addr@.take(i as int)) == Some(cur@),
        decreases addr@.len() - i,
    {
        proof {
            assert(addr@ =~= addr@.take(i as int) + addr@.skip(i as int));
            lemma_node_at_concat(root@, addr@.take(i as int), addr@.skip(i as int));
            assert(addr@.skip(i as int)[0] == addr@[i as int]);
            lemma_model_seq(cur.children@);
            lemma_node_at_push(root@, addr@.take(i as int), cur@, addr@[i as int]);
            assert(addr@.take(i as int).push(addr@[i as int]) =~= addr@.take(i + 1));
        }
        cur = &cur.children[addr[i]];
        i = i + 1;
    }
    proof {
        assert(addr@.take(addr@.len() as int) =~= addr@);
    }
    cur
}

/// Set `expanded` on the node at `addr[i..]` below `node`.
fn expand_at(node: &mut DirEntry, addr: &Vec<usize>, i: usize)
    requires
        i <= addr@.len(),
        old(node)@.node_at(addr@.skip(i as int)) is Some,
    ensures
        final(node)@ == old(node)@.replace_at(
            addr@.skip(i as int),
            NodeV { expanded: true, ..old(node)@.node_at(addr@.skip(i as int)).unwrap() },
        ),
    decreases addr@.len() - i,
{
    if i == addr.len() {
        proof {
            assert(addr@.skip(i as int) =~= Seq::<usize>::empty());
        }
        node.expanded = true;
        proof {
            assert(node@ =~= old(node)@.replace_at(
                addr@.skip(i as int),
                NodeV { expanded: true, ..old(node)@ },
            ));
        }
    } else {
        let ghost rel = addr@.skip(i as int);
        proof {
            lemma_model_seq(node.children@);
            assert(rel[0] == addr@[i as int]);
        }
        let j = addr[i];
        let ghost pre = node.children@;
        let mut c = node.children.remove(j);
        proof {
            assert(rel.drop_first() =~= addr@.skip(i + 1));
            assert(c@ == old(node)@.children[j as int]);
        }
        expand_at(&mut c, addr, i + 1);
        node.children.insert(j, c);
        proof {
            assert(node.children@ =~= pre.update(j as int, c));
            lemma_model_seq(node.children@);
            lemma_model_seq(pre);
            assert(crate::tree::model_seq(node.children@) =~= crate::tree::model_seq(
                pre,
            ).update(j as int, c@));
            assert(node@ =~= old(node)@.replace_at(
                rel,
                NodeV { expanded: true, ..old(node)@.node_at(rel).unwrap() },
            ));
        }
    }
}

/// Collapse the whole subtree of the node at `addr[i..]` below `node`.
fn collapse_at(node: &mut DirEntry, addr: &Vec<usize>, i: usize)
    requires
        i <= addr@.len(),
        old(node)@.node_at(addr@.skip(i as int)) is Some,
    ensures
        final(node)@ == old(node)@.replace_at(
            addr@.skip(i as int),
            old(node)@.node_at(addr@.skip(i as int)).unwrap().collapsed(),
        ),
    decreases addr@.len() - i,
{
    if i == addr.len() {
        proof {
            assert(addr@.skip(i as int) =~= Seq::<usize>::empty());
        }
        node.collapse_all();
    } else {
        let ghost rel = addr@.skip(i as int);
        proof {
            lemma_model_seq(node.children@);
            assert(rel[0] == addr@[i as int]);
        }
        let j = addr[i];
        let ghost pre = node.children@;
        let mut c = node.children.remove(j);
        proof {
            assert(rel.drop_first() =~= addr@.skip(i + 1));
            assert(c@ == old(node)@.children[j as int]);
        }
        collapse_at(&mut c, addr, i + 1);
        node.children.insert(j, c);
        proof {
            assert(node.children@ =~= pre.update(j as int, c));
            lemma_model_seq(node.children@);
            lemma_model_seq(pre);
            assert(crate::tree::model_seq(node.children@) =~= crate::tree::model_seq(
                pre,
            ).update(j as int, c@));
            assert(node@ =~= old(node)@.replace_at(
                rel,
                old(node)@.node_at(rel).unwrap().collapsed(),
            ));
        }
    }
}

/// Load children from a scan at the node at `addr[i..]` below `node`.
fn load_at(node: &mut DirEntry, addr: &Vec<usize>, i: usize, entries: &Vec<ScanEntry>)
    requires
        i <= addr@.len(),
        old(node)@.node_at(addr@.skip(i as int)) is Some,
    ensures
        final(node)@ == old(node)@.replace_at(
            addr@.skip(i as int),
            spec_load(
                old(node)@.node_at(addr@.skip(i as int)).unwrap(),
                crate::tree::scan_models(entries@),
            ),
        ),
    decreases addr@.len() - i,
{
    if i == addr.len() {
        proof {
            assert(addr@.skip(i as int) =~= Seq::<usize>::empty());
        }
        node.load_children(entries);
    } else {
        let ghost rel = addr@.skip(i as int);
        proof {
            lemma_model_seq(node.children@);
            assert(rel[0] == addr@[i as int]);
        }
        let j = addr[i];
        let ghost pre = node.children@;
        let mut c = node.children.remove(j);
        proof {
            assert(rel.drop_first() =~= addr@.skip(i + 1));
            assert(c@ == old(node)@.children[j as int]);
        }
        load_at(&mut c, addr, i + 1, entries);
        node.children.insert(j, c);
        proof {
            assert(node.children@ =~= pre.update(j as int, c));
            lemma_model_seq(node.children@);
            lemma_model_seq(pre);
            assert(crate::tree::model_seq(node.children@) =~= crate::tree::model_seq(
                pre,
            ).update(j as int, c@));
            assert(node@ =~= old(node)@.replace_at(
                rel,
                spec_load(old(node)@.node_at(rel).unwrap(), crate::tree::scan_models(entries@)),
            ));
        }
    }
}

/// A priming load at the node at `addr[i..]` below `node`.
fn load_only_at(
    node: &mut DirEntry,
    addr: &Vec<usize>,
    i: usize,
    target: &str,
    entries: &Vec<ScanEntry>,
) -> (r: Option<usize>)
    requires
        i <= addr@.len(),
        old(node)@.node_at(addr@.skip(i as int)) is Some,
    ensures
        final(node)@ == old(node)@.replace_at(
            addr@.skip(i as int),
            spec_load_only(
                old(node)@.node_at(addr@.skip(i as int)).unwrap(),
                target@,
                crate::tree::scan_models(entries@),
            ),
        ),
        r == if spec_load_only(
            old(node)@.node_at(addr@.skip(i as int)).unwrap(),
            target@,
            crate::tree::scan_models(entries@),
        ).children.len() > 0 {
            Some(0usize)
        } else {
            None::<usize>
        },
    decreases addr@.len() - i,
{
    if i == addr.len() {
        proof {
            assert(addr@.skip(i as int) =~= Seq::<usize>::empty());
        }
        node.load_only(target, entries)
    } else {
        let ghost rel = addr@.skip(i as int);
        proof {
            lemma_model_seq(node.children@);
            assert(rel[0] == addr@[i as int]);
        }
        let j = addr[i];
        let ghost pre = node.children@;
        let mut c = node.children.remove(j);
        proof {
            assert(rel.drop_first() =~= addr@.skip(i + 1));
            assert(c@ == old(node)@.children[j as int]);
        }
        let r = load_only_at(&mut c, addr, i + 1, target, entries);
        node.children.insert(j, c);
        proof {
            assert(node.children@ =~= pre.update(j as int, c));
            lemma_model_seq(node.children@);
            lemma_model_seq(pre);
            assert(crate::tree::model_seq(node.children@) =~= crate::tree::model_seq(
                pre,
            ).update(j as int, c@));
            assert(node@ =~= old(node)@.replace_at(
                rel,
                spec_load_only(
                    old(node)@.node_at(rel).unwrap(),
                    target@,
                    crate::tree::scan_models(entries@),
                ),
            ));
        }
        r
    }
}

} // verus!
