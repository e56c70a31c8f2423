//! The texts by which the text interface shows archives and files.
use vstd::prelude::*;
use crate::browser::{TreeNode, TreeNodeView};
use crate::config::{StorageConfig, StorageConfigView};
use crate::entry::EntryKind;
use crate::number::{decimal, push_decimal};
use crate::text::{push_text, to_chars};
use crate::tui::{place_of_line, place_or_first, shown, StorageEntry, StorageEntryView,
    StorageStatus, TuiApp};

verus! {

/// `text` followed by as many spaces as it lacks in `width`.
pub open spec fn filled(text: Seq<char>, width: nat) -> Seq<char> {
    if text.len() < width {
        text + Seq::new((width - text.len()) as nat, |i: int| ' ')
    } else {
        text
    }
}

/// The word for how an archive is in use.
pub open spec fn status_text(status: StorageStatus, exists: bool) -> Seq<char> {
    match status {
        StorageStatus::Closed => if exists {
            "closed"@
        } else {
            "missing"@
        },
        StorageStatus::Open => "open"@,
        StorageStatus::Mounted => "mounted"@,
    }
}

/// The path of an archive as the dashboard shows it.
pub open spec fn path_text(entry: StorageEntryView) -> Seq<char> {
    " "@ + filled(entry.config.path, 43) + " "@
}

/// What the dashboard shows beside the path of an archive.
pub open spec fn use_text(entry: StorageEntryView, exists: bool) -> Seq<char> {
    "["@ + filled(status_text(entry.status, exists), 7) + "]"@ + if entry.config.auto_mount {
        " [auto]"@
    } else {
        Seq::<char>::empty()
    }
}

/// The line for an archive in the settings.
pub open spec fn settings_text(config: StorageConfigView) -> Seq<char> {
    " "@ + if config.auto_mount {
        "[x]"@
    } else {
        "[ ]"@
    } + "  "@ + filled(config.path, 40) + "  mount: "@ + if config.mount_point.len() == 0 {
        "(no mount point)"@
    } else {
        config.mount_point
    }
}

/// Two spaces for each level, up to the given number.
pub open spec fn indented(levels: nat) -> Seq<char>
    decreases levels,
{
    if levels == 0 {
        Seq::<char>::empty()
    } else {
        indented((levels - 1) as nat) + "  "@
    }
}

/// The line for a file: indented by its depth up to ten levels, with a letter for its kind.
pub open spec fn file_text(line: TreeNodeView) -> Seq<char> {
    indented(
        if line.depth < 10 {
            line.depth
        } else {
            10
        },
    ) + match line.kind {
        EntryKind::Directory => "D "@ + line.name + "/"@,
        EntryKind::Symlink => "L "@ + line.name,
        EntryKind::File => "  "@ + line.name,
    }
}

/// What stands above the list of files.
pub open spec fn title_text(path: Seq<char>, count: nat, filter: Seq<char>) -> Seq<char> {
    " "@ + path + "  \u{2014}  "@ + decimal(count) + " items  "@ + if filter.len() == 0 {
        Seq::<char>::empty()
    } else {
        "filter: "@ + filter
    }
}

/// Appends a text and the spaces that it lacks.
fn push_filled(out: &mut String, text: &str, width: usize)
    ensures
        final(out)@ == old(out)@ + filled(text@, width as nat),
{
    let ghost before = out@;
    let mut length: usize = to_chars(text).len();
    push_text(out, text);
    let ghost start = length;
    #[verifier::loop_isolation(false)]
    while length < width
        invariant
            start <= length,
            length <= width || length == start,
            out@ == before + text@ + Seq::new((length - start) as nat, |i: int| ' '),
        decreases width - length,
    {
        out.push(' ');
        length += 1;
        assert(out@ =~= before + text@ + Seq::new((length - start) as nat, |i: int| ' '));
    }
    assert(out@ =~= before + filled(text@, width as nat));
}

/// The word for how an archive is in use.
pub fn status_word(status: StorageStatus, exists: bool) -> (r: &'static str)
    ensures
        r@ == status_text(status, exists),
{
    match status {
        StorageStatus::Closed => if exists {
            "closed"
        } else {
            "missing"
        },
        StorageStatus::Open => "open",
        StorageStatus::Mounted => "mounted",
    }
}

/// The path of an archive as the dashboard shows it.
pub fn path_label(entry: &StorageEntry) -> (r: String)
    ensures
        r@ == path_text(entry@),
{
    let mut r: String = String::new();
    push_text(&mut r, " ");
    push_filled(&mut r, entry.config.path.as_str(), 43);
    push_text(&mut r, " ");
    assert(r@ =~= path_text(entry@));
    r
}

/// What the dashboard shows beside the path of an archive.
pub fn use_label(entry: &StorageEntry, exists: bool) -> (r: String)
    ensures
        r@ == use_text(entry@, exists),
{
    let mut r: String = String::new();
    push_text(&mut r, "[");
    push_filled(&mut r, status_word(entry.status, exists), 7);
    push_text(&mut r, "]");
    if entry.config.auto_mount {
        push_text(&mut r, " [auto]");
    }
    assert(r@ =~= use_text(entry@, exists));
    r
}

/// The line for an archive in the settings.
pub fn settings_label(config: &StorageConfig) -> (r: String)
    ensures
        r@ == settings_text(config@),
{
    let mut r: String = String::new();
    push_text(&mut r, " ");
    push_text(
        &mut r,
        if config.auto_mount {
            "[x]"
        } else {
            "[ ]"
        },
    );
    push_text(&mut r, "  ");
    push_filled(&mut r, config.path.as_str(), 40);
    push_text(&mut r, "  mount: ");
    if config.mount_point.as_str().is_empty() {
        push_text(&mut r, "(no mount point)");
    } else {
        push_text(&mut r, config.mount_point.as_str());
    }
    assert(r@ =~= settings_text(config@));
    r
}

/// The line for a file.
pub fn file_label(line: &TreeNode) -> (r: String)
    ensures
        r@ == file_text(line@),
{
    let mut r: String = String::new();
    let levels: usize = if line.depth < 10 {
        line.depth
    } else {
        10
    };
    let mut i: usize = 0;
    assert(r@ =~= indented(0));
    #[verifier::loop_isolation(false)]
    while i < levels
        invariant
            i <= levels,
            r@ == indented(i as nat),
        decreases levels - i,
    {
        push_text(&mut r, "  ");
        i += 1;
    }
    let ghost start = r@;
    match line.kind {
        EntryKind::Directory => {
            push_text(&mut r, "D ");
            push_text(&mut r, line.name.as_str());
            push_text(&mut r, "/");
            assert(r@ =~= start + ("D "@ + line.name@ + "/"@));
        },
        EntryKind::Symlink => {
            push_text(&mut r, "L ");
            push_text(&mut r, line.name.as_str());
            assert(r@ =~= start + ("L "@ + line.name@));
        },
        EntryKind::File => {
            push_text(&mut r, "  ");
            push_text(&mut r, line.name.as_str());
            assert(r@ =~= start + ("  "@ + line.name@));
        },
    }
    r
}

/// The place of a box in the middle of an area.
pub fn centered(width: u16, height: u16, box_width: u16, box_height: u16) -> (r: (u16, u16))
    requires
        box_width <= width,
        box_height <= height,
    ensures
        r.0 == (width - box_width) / 2,
        r.1 == (height - box_height) / 2,
{
    ((width - box_width) / 2, (height - box_height) / 2)
}

/// How wide the box is in which an answer is typed: at most 60 columns, at least 30.
pub fn input_width(width: u16) -> (r: u16)
    ensures
        r == if width < 30 {
            30
        } else if width < 60 {
            width as int
        } else {
            60
        },
{
    if width < 30 {
        30
    } else if width < 60 {
        width
    } else {
        60
    }
}

/// Which of `count` rows is highlighted: the selected one, or the last where the selection lies
/// behind it.
pub fn highlighted_row(selected: usize, count: usize) -> (r: Option<usize>)
    ensures
        r == if count == 0 {
            None
        } else if selected < count {
            Some(selected)
        } else {
            Some((count - 1) as usize)
        },
{
    if count == 0 {
        None
    } else if selected < count {
        Some(selected)
    } else {
        Some(count - 1)
    }
}

impl TuiApp {
    /// What stands above the list of files.
    pub fn title(&self) -> (r: String)
        ensures
            r@ == title_text(self@.open_path, self@.files.len(), self@.filter),
    {
        let mut r: String = String::new();
        push_text(&mut r, " ");
        push_text(&mut r, self.open_path.as_str());
        push_text(&mut r, "  \u{2014}  ");
        push_decimal(&mut r, self.file_list.len() as u64);
        push_text(&mut r, " items  ");
        if !self.filter.as_str().is_empty() {
            push_text(&mut r, "filter: ");
            push_text(&mut r, self.filter.as_str());
        }
        assert(r@ =~= title_text(self@.open_path, self@.files.len(), self@.filter));
        r
    }

    /// Which of the lines that the browser lists is highlighted: that of the selected file, or the
    /// first.
    pub fn highlighted(&self) -> (r: Option<usize>)
        requires
            self.wf(),
        ensures
            r == if shown(self@).len() == 0 {
                None
            } else {
                Some(place_or_first(shown(self@), self@.file_selected) as usize)
            },
    {
        let lines: Vec<usize> = self.filtered_file_list();
        if lines.len() == 0 {
            return None;
        }
        let place: usize = place_of_line(&lines, self.file_selected);
        Some(
            if place < lines.len() {
                place
            } else {
                0
            },
        )
    }
}

} // verus!
