use vstd::prelude::*;

use crate::text::{
    dec_str, digit_char, digit_str, pad_left, pad_left_exec, pad_right, pad_right_exec,
    u64_to_dec,
};
use crate::tree::opt_str_model;

verus! {

pub const KB: u64 = 1024;

pub const MB: u64 = 1024 * 1024;

pub const GB: u64 = 1024 * 1024 * 1024;

/// A byte count with one (truncated) decimal in units of `unit`.
pub open spec fn size_1dec(b: u64, unit: u64) -> Seq<char>
    recommends
        unit > 0,
{
    dec_str((b / unit) as nat) + seq!['.'] + seq![
        digit_char((((b % unit) * 10) as u64 / unit) as nat),
    ]
}

/// A human-readable size: bytes below 1024, else KB/MB/GB with one decimal,
/// at binary thresholds.
pub open spec fn spec_format_size(b: u64) -> Seq<char> {
    if b >= GB {
        size_1dec(b, GB) + " GB"@
    } else if b >= MB {
        size_1dec(b, MB) + " MB"@
    } else if b >= KB {
        size_1dec(b, KB) + " KB"@
    } else {
        dec_str(b as nat) + " B"@
    }
}

fn one_dec(b: u64, unit: u64, suffix: &'static str) -> (r: String)
    requires
        2 <= unit <= GB,
    ensures
        r@ == size_1dec(b, unit) + suffix@,
{
    let mut s = u64_to_dec(b / unit);
    s.append(".");
    let rem = b % unit;
    let tenth = rem * 10 / unit;
    proof {
        vstd::arithmetic::div_mod::lemma_multiply_divide_lt(rem * 10, unit as int, 10);
    }
    assert(tenth < 10);
    s.append(digit_str(tenth));
    proof {
        reveal_strlit(".");
        assert(s@ =~= size_1dec(b, unit));
    }
    s.concat(suffix)
}

/// Format a byte count for display.
pub fn format_size(bytes: u64) -> (r: String)
    ensures
        r@ == spec_format_size(bytes),
{
    if bytes >= GB {
        one_dec(bytes, GB, " GB")
    } else if bytes >= MB {
        one_dec(bytes, MB, " MB")
    } else if bytes >= KB {
        one_dec(bytes, KB, " KB")
    } else {
        let s = u64_to_dec(bytes);
        s.concat(" B")
    }
}

/// Bit `d` (a power of two) is set in `mode`, phrased arithmetically.
pub open spec fn has_bit(mode: u32, d: u32) -> bool
    recommends
        d > 0,
{
    (mode / d) % 2 == 1
}

/// The 9-character symbolic permission string of a mode.
pub open spec fn perm_string(mode: u32) -> Seq<char> {
    seq![
        if has_bit(mode, 256) { 'r' } else { '-' },
        if has_bit(mode, 128) { 'w' } else { '-' },
        if has_bit(mode, 64) { 'x' } else { '-' },
        if has_bit(mode, 32) { 'r' } else { '-' },
        if has_bit(mode, 16) { 'w' } else { '-' },
        if has_bit(mode, 8) { 'x' } else { '-' },
        if has_bit(mode, 4) { 'r' } else { '-' },
        if has_bit(mode, 2) { 'w' } else { '-' },
        if has_bit(mode, 1) { 'x' } else { '-' },
    ]
}

fn bit_set(mode: u32, d: u32) -> (r: bool)
    requires
        d > 0,
    ensures
        r == has_bit(mode, d),
{
    (mode / d) % 2 == 1
}

/// Render the symbolic permission string.
pub fn perms_of_mode(mode: u32) -> (r: String)
    ensures
        r@ == perm_string(mode),
{
    proof {
        reveal_strlit("r");
        reveal_strlit("w");
        reveal_strlit("x");
        reveal_strlit("-");
    }
    let mut s = String::new();
    s.append(if bit_set(mode, 256) { "r" } else { "-" });
    s.append(if bit_set(mode, 128) { "w" } else { "-" });
    s.append(if bit_set(mode, 64) { "x" } else { "-" });
    s.append(if bit_set(mode, 32) { "r" } else { "-" });
    s.append(if bit_set(mode, 16) { "w" } else { "-" });
    s.append(if bit_set(mode, 8) { "x" } else { "-" });
    s.append(if bit_set(mode, 4) { "r" } else { "-" });
    s.append(if bit_set(mode, 2) { "w" } else { "-" });
    s.append(if bit_set(mode, 1) { "x" } else { "-" });
    proof {
        assert(s@ =~= perm_string(mode));
    }
    s
}

/// Any execute permission bit is set.
pub open spec fn is_executable(mode: u32) -> bool {
    has_bit(mode, 64) || has_bit(mode, 8) || has_bit(mode, 1)
}

/// What the filesystem reported about one entry of the inspected directory.
pub struct FileInfo {
    pub name: String,
    pub is_dir: bool,
    pub is_symlink: bool,
    pub is_file: bool,
    pub link_target: Option<String>,
    pub resolved_is_dir: Option<bool>,
    pub size: u64,
    pub modified: Option<i64>,
    pub mode: u32,
}

/// Model of a file entry.
pub struct FileInfoV {
    pub name: Seq<char>,
    pub is_dir: bool,
    pub is_symlink: bool,
    pub is_file: bool,
    pub link_target: Option<Seq<char>>,
    pub resolved_is_dir: Option<bool>,
    pub size: u64,
    pub modified: Option<i64>,
    pub mode: u32,
}

impl View for FileInfo {
    type V = FileInfoV;

    open spec fn view(&self) -> FileInfoV {
        FileInfoV {
            name: self.name@,
            is_dir: self.is_dir,
            is_symlink: self.is_symlink,
            is_file: self.is_file,
            link_target: opt_str_model(self.link_target),
            resolved_is_dir: self.resolved_is_dir,
            size: self.size,
            modified: self.modified,
            mode: self.mode,
        }
    }
}

/// How a popup row is styled.
#[derive(Clone, Copy, Debug, PartialEq, Eq, Structural)]
pub enum ItemStyle {
    Plain,
    Exec,
    Link,
    Broken,
}

/// One rendered popup line.
pub struct PopupItem {
    pub text: String,
    pub style: ItemStyle,
}

pub struct PopupItemV {
    pub text: Seq<char>,
    pub style: ItemStyle,
}

impl View for PopupItem {
    type V = PopupItemV;

    open spec fn view(&self) -> PopupItemV {
        PopupItemV { text: self.text@, style: self.style }
    }
}

pub open spec fn opt_item_model(r: Option<PopupItem>) -> Option<PopupItemV> {
    match r {
        Some(it) => Some(it@),
        None => None,
    }
}

/// A popup line: padded display name, right-aligned size, modification time,
/// permissions.
pub open spec fn item_line(i: FileInfoV, disp: Seq<char>, style: ItemStyle, m: Seq<char>)
    -> PopupItemV {
    PopupItemV {
        text: pad_right(disp, 30) + seq![' '] + pad_left(spec_format_size(i.size), 8) + seq![' ']
            + pad_right(m, 16) + seq![' '] + perm_string(i.mode),
        style: style,
    }
}

/// What the target of a symlink renders as.
pub open spec fn target_text(lt: Option<Seq<char>>) -> Seq<char> {
    match lt {
        Some(t) => t,
        None => "???"@,
    }
}

/// Which popup row a scanned entry yields with modification time text `m`:
/// directories and symlinks to directories are skipped; a broken symlink is
/// marked; an executable regular file is emphasized.
pub open spec fn spec_item(i: FileInfoV, m: Seq<char>) -> Option<PopupItemV> {
    if i.is_dir {
        None
    } else if i.is_symlink {
        match i.resolved_is_dir {
            Some(b) => if b {
                None
            } else {
                Some(item_line(i, i.name + " -> "@ + target_text(i.link_target), ItemStyle::Link, m))
            },
            None => Some(item_line(i, i.name + " -> ???"@, ItemStyle::Broken, m)),
        }
    } else if i.is_file {
        Some(
            item_line(
                i,
                i.name,
                if is_executable(i.mode) {
                    ItemStyle::Exec
                } else {
                    ItemStyle::Plain
                },
                m,
            ),
        )
    } else {
        None
    }
}

/// Build the popup row for one entry, given the already formatted
/// modification time.
pub fn format_file_item_with(info: &FileInfo, mtime: &str) -> (r: Option<PopupItem>)
    ensures
        opt_item_model(r) == spec_item(info@, mtime@),
{
    if info.is_dir {
        return None;
    }
    let (disp, style): (String, ItemStyle) = if info.is_symlink {
        match info.resolved_is_dir {
            Some(b) => {
                if b {
                    return None;
                }
                let mut d = info.name.clone();
                d.append(" -> ");
                match &info.link_target {
                    Some(t) => d.append(t.as_str()),
                    None => d.append("???"),
                }
                proof {
                    reveal_strlit(" -> ");
                    reveal_strlit("???");
                    assert(d@ =~= info@.name + " -> "@ + target_text(info@.link_target));
                }
                (d, ItemStyle::Link)
            },
            None => {
                let mut d = info.name.clone();
                d.append(" -> ???");
                proof {
                    reveal_strlit(" -> ???");
                    assert(d@ =~= info@.name + " -> ???"@);
                }
                (d, ItemStyle::Broken)
            },
        }
    } else if info.is_file {
        let st = if bit_set(info.mode, 64) || bit_set(info.mode, 8) || bit_set(info.mode, 1) {
            ItemStyle::Exec
        } else {
            ItemStyle::Plain
        };
        (info.name.clone(), st)
    } else {
        return None;
    };
    let mut text = pad_right_exec(disp, 30);
    text.append(" ");
    let size_part = pad_left_exec(format_size(info.size), 8);
    text.append(size_part.as_str());
    text.append(" ");
    let mtime_part = pad_right_exec(mtime.to_owned(), 16);
    text.append(mtime_part.as_str());
    text.append(" ");
    let perms = perms_of_mode(info.mode);
    text.append(perms.as_str());
    proof {
        reveal_strlit(" ");
    }
    let r = Some(PopupItem { text, style });
    proof {
        assert(r.unwrap()@.text =~= spec_item(info@, mtime@).unwrap().text);
    }
    r
}

/// Relies on chrono's `DateTime::from_timestamp`, `with_timezone` to the
/// local zone, and minute-precision formatting; the result depends on the
/// machine's time zone, so nothing more is stated of it.
#[verifier::external_body]
pub fn format_local_time(secs: i64) -> (r: String)
    ensures
        r@.len() > 0,
{
    match chrono::DateTime::from_timestamp(secs, 0) {
        Some(dt) => dt.with_timezone(&chrono::Local).format("%Y-%m-%d %H:%M").to_string(),
        None => "???".to_string(),
    }
}

/// Build the popup row for one entry, formatting its modification time in
/// local time (or a placeholder when the time is unknown).
pub fn format_file_item(info: &FileInfo) -> (r: Option<PopupItem>)
    ensures
        exists|m: Seq<char>|
            opt_item_model(r) == #[trigger] spec_item(info@, m) && (info@.modified is None ==> m
                == "???"@),
{
    let mstr: String = match info.modified {
        Some(s) => format_local_time(s),
        None => {
            let mut q = String::new();
            q.append("???");
            q
        },
    };
    let r = format_file_item_with(info, mstr.as_str());
    proof {
        if info@.modified is None {
            reveal_strlit("???");
            assert(mstr@ =~= "???"@);
        }
        assert(opt_item_model(r) == spec_item(info@, mstr@));
    }
    r
}

/// The inspector overlay's own state: visibility and scroll offset.
pub struct Popup {
    pub visible: bool,
    pub offset: usize,
}

/// Model of the popup state.
pub struct PopupV {
    pub visible: bool,
    pub offset: int,
}

impl View for Popup {
    type V = PopupV;

    open spec fn view(&self) -> PopupV {
        PopupV { visible: self.visible, offset: self.offset as int }
    }
}

impl Popup {
    /// A hidden popup at the top of its listing.
    pub fn new() -> (r: Popup)
        ensures
            r@ == (PopupV { visible: false, offset: 0 }),
    {
        Popup { visible: false, offset: 0 }
    }

    /// Show the popup when hidden and hide it when shown; hiding rewinds the
    /// scroll.
    pub fn toggle(&mut self)
        ensures
            final(self)@.visible == !old(self)@.visible,
            final(self)@.offset == if final(self)@.visible {
                old(self)@.offset
            } else {
                0
            },
    {
        self.visible = !self.visible;
        if !self.visible {
            self.offset = 0;
        }
    }

    /// Hide the popup and rewind the scroll.
    pub fn dismiss(&mut self)
        ensures
            final(self)@ == (PopupV { visible: false, offset: 0 }),
    {
        self.visible = false;
        self.offset = 0;
    }

    /// Scroll one row up, stopping at the top.
    pub fn scroll_up(&mut self)
        ensures
            final(self)@.offset == if old(self)@.offset > 0 {
                old(self)@.offset - 1
            } else {
                0
            },
            final(self)@.visible == old(self)@.visible,
    {
        if self.offset > 0 {
            self.offset = self.offset - 1;
        }
    }

    /// Scroll one row down, never letting `offset + view_height` pass the
    /// listing's end.
    pub fn scroll_down(&mut self, max: usize, view_height: usize)
        ensures
            final(self)@.offset == if old(self)@.offset + view_height < max {
                old(self)@.offset + 1
            } else {
                old(self)@.offset
            },
            final(self)@.visible == old(self)@.visible,
    {
        if self.offset < usize::MAX - view_height && self.offset + view_height < max {
            self.offset = self.offset + 1;
        }
    }

    /// The window of the listing shown at the current scroll, clamped so it
    /// stays inside a listing of `total` rows.
    pub fn window(&self, total: usize, view_height: usize) -> (r: (usize, usize))
        ensures
            r.0 as int == vstd::math::min(
                self@.offset,
                vstd::math::max(total - view_height, 0),
            ),
            r.1 as int == vstd::math::min(r.0 as int + view_height as int, total as int),
            r.0 <= r.1 <= total,
    {
        let max_offset = if total >= view_height {
            total - view_height
        } else {
            0
        };
        let start = if self.offset < max_offset {
            self.offset
        } else {
            max_offset
        };
        let end = if start <= usize::MAX - view_height && start + view_height < total {
            start + view_height
        } else {
            total
        };
        (start, end)
    }
}

} // verus!
