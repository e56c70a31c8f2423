//! What the text interface owes to each key and each answer.
use vstd::prelude::*;
use crate::browser::file_lines;
use crate::config::StorageConfigView;
use crate::entry::{EntryKind, Meta};
use crate::number::decimal;
use crate::outcome::{deleted, failure_text, mounted, mounted_at, opened, reconfigured, refreshed,
    save_if_listed, showing, started, unmounted, Failure};
use crate::preview::head_text;
use crate::tui::{chosen, first_place, lemma_first_place, listed, pressed, previewed, question, said,
    shown, stepped, unrooted, ActionView, ConfirmKindView, ConfirmView, InputView, Key, Screen,
    StorageEntryView, StorageStatus, TuiView};
use crate::tuilaws::law_filter;

verus! {

/// No question is open.
pub open spec fn is_idle(v: TuiView) -> bool {
    !v.input.visible && v.confirm is None
}

/// `v` with `answer` typed in.
pub open spec fn typed(v: TuiView, answer: Seq<char>) -> TuiView {
    TuiView { input: InputView { buffer: answer, ..v.input }, ..v }
}

/// `v` with no question shown.
pub open spec fn unasked(v: TuiView) -> TuiView {
    TuiView { input: InputView { visible: false, ..v.input }, ..v }
}

/// A key that puts a question changes nothing else.
pub open spec fn is_asking(v: TuiView, key: Key, offered: Seq<char>) -> bool {
    let (next, action) = pressed(v, key);
    &&& next.input.visible
    &&& next.input.buffer == offered
    &&& next == (TuiView { input: next.input, ..v })
    &&& action is Nothing
}

/// A text without a character is searched to its end, and one with it up to the first.
proof fn lemma_space(before: Seq<char>, behind: Seq<char>)
    requires
        !before.contains(' '),
    ensures
        first_place(before, ' ') == before.len(),
        first_place(before + seq![' '] + behind, ' ') == before.len(),
        (before + seq![' '] + behind).take(before.len() as int) == before,
        (before + seq![' '] + behind).skip(before.len() as int + 1) == behind,
{
    let all = before + seq![' '] + behind;
    assert forall|k: int| 0 <= k < before.len() implies before[k] != ' ' by {
        if before[k] == ' ' {
            assert(before.contains(' '));
        }
    }
    assert forall|k: int| 0 <= k < before.len() implies all[k] != ' ' by {
        assert(all[k] == before[k]);
    }
    lemma_first_place(before, ' ', before.len() as int);
    lemma_first_place(all, ' ', before.len() as int);
    assert(all.take(before.len() as int) =~= before);
    assert(all.skip(before.len() as int + 1) =~= behind);
}

/// `i` in the browser asks what to import. An answer without a space is a file that keeps its name;
/// an answer with one is a file, up to the first space, and what it is to be called.
pub proof fn law_import(v: TuiView, source: Seq<char>, target: Seq<char>)
    requires
        v.screen is Browser,
        is_idle(v),
        !source.contains(' '),
    ensures
        is_asking(v, Key::Char('i'), Seq::<char>::empty()),
        ({
            let asked = pressed(v, Key::Char('i')).0;
            let (plain, first) = pressed(typed(asked, source), Key::Enter);
            let (named, second) = pressed(
                typed(asked, source + seq![' '] + target),
                Key::Enter,
            );
            &&& first == ActionView::Import { source, target: None }
            &&& plain == unasked(typed(asked, source))
            &&& second == ActionView::Import { source, target: Some(target) }
            &&& named == unasked(typed(asked, source + seq![' '] + target))
        }),
{
    reveal_strlit("Import: <real-path> [virtual-path]");
    reveal_strlit("Import");
    lemma_space(source, target);
    assert("Import"@ =~= "Import: <real-path> [virtual-path]"@.subrange(0, 6));
}

/// `e` in the browser asks where to export the selected file to, and offers its name. Directories
/// are not exported.
pub proof fn law_export(v: TuiView, answer: Seq<char>)
    requires
        v.screen is Browser,
        is_idle(v),
        v.file_selected < v.files.len(),
    ensures
        ({
            let line = v.files[v.file_selected as int];
            let (asked, action) = pressed(v, Key::Char('e'));
            let (after, answered) = pressed(typed(asked, answer), Key::Enter);
            &&& line.kind == EntryKind::Directory ==> action is Nothing && asked == said(
                v,
                "Cannot export a directory"@,
            )
            &&& line.kind != EntryKind::Directory ==> {
                &&& is_asking(v, Key::Char('e'), line.name)
                &&& after == unasked(typed(asked, answer))
                &&& answered == if answer.len() > 0 && v.open {
                    ActionView::Export { source: line.path, dest: answer }
                } else {
                    ActionView::Nothing
                }
            }
        }),
{
    reveal_strlit("Export: enter destination path");
    reveal_strlit("Export");
    reveal_strlit("Import");
    assert("Export"@ =~= "Export: enter destination path"@.subrange(0, 6));
    assert(!"Import"@.is_prefix_of("Export: enter destination path"@)) by {
        assert("Import"@[0] != "Export: enter destination path"@.subrange(0, 6)[0]);
    }
}

/// Slashes before a path do not count.
pub proof fn law_unrooted(text: Seq<char>, rest: Seq<char>)
    requires
        rest.len() == 0 || rest[0] != '/',
    ensures
        unrooted(rest) == rest,
        unrooted(seq!['/'] + text) == unrooted(text),
        unrooted(text).len() == 0 || unrooted(text)[0] != '/',
    decreases text.len(),
{
    assert((seq!['/'] + text).drop_first() =~= text);
    if text.len() > 0 && text[0] == '/' {
        law_unrooted(text.drop_first(), rest);
    }
}

/// `r` in the browser asks for a new path of the selected file, and offers the present one. Slashes
/// before the new path do not count, and an empty path is refused.
pub proof fn law_rename(v: TuiView, answer: Seq<char>)
    requires
        v.screen is Browser,
        is_idle(v),
        v.file_selected < v.files.len(),
        v.files[v.file_selected as int].path.len() > 0,
    ensures
        ({
            let line = v.files[v.file_selected as int];
            let (asked, action) = pressed(v, Key::Char('r'));
            let (after, answered) = pressed(typed(asked, answer), Key::Enter);
            &&& is_asking(v, Key::Char('r'), line.path)
            &&& answer.len() > 0 && unrooted(answer).len() > 0 && v.open ==> answered
                == ActionView::Rename { old_path: line.path, new_path: unrooted(answer) }
            &&& unrooted(answer).len() == 0 || !v.open ==> answered is Nothing
            &&& answer.len() > 0 && unrooted(answer).len() == 0 ==> after == said(
                unasked(typed(asked, answer)),
                "Invalid new path"@,
            )
            &&& answer.len() == 0 || unrooted(answer).len() > 0 ==> after == unasked(
                typed(asked, answer),
            )
        }),
{
    reveal_strlit("Rename: enter new path");
    reveal_strlit("Rename");
    reveal_strlit("Import");
    reveal_strlit("Export");
    assert("Rename"@ =~= "Rename: enter new path"@.subrange(0, 6));
    assert(!"Import"@.is_prefix_of("Rename: enter new path"@)) by {
        assert("Import"@[0] != "Rename: enter new path"@.subrange(0, 6)[0]);
    }
    assert(!"Export"@.is_prefix_of("Rename: enter new path"@)) by {
        assert("Export"@[0] != "Rename: enter new path"@.subrange(0, 6)[0]);
    }
    if answer.len() == 0 {
        assert(unrooted(answer).len() == 0);
    }
}

/// `f` and `/` in the browser ask for a filter, and offer the present one. The answer is the filter,
/// and the first file is selected.
pub proof fn law_filtering(v: TuiView, key: Key, answer: Seq<char>)
    requires
        v.screen is Browser,
        is_idle(v),
        key == Key::Char('f') || key == Key::Char('/'),
    ensures
        is_asking(v, key, v.filter),
        ({
            let asked = pressed(v, key).0;
            let (after, action) = pressed(typed(asked, answer), Key::Enter);
            &&& action is Nothing
            &&& after == (TuiView {
                filter: answer,
                file_selected: 0,
                ..unasked(typed(asked, answer))
            })
        }),
{
    reveal_strlit("Filter: enter search term");
    reveal_strlit("Filter:");
    reveal_strlit("Filter");
    reveal_strlit("Rename");
    reveal_strlit("Import");
    reveal_strlit("Export");
    assert("Filter"@ =~= "Filter: enter search term"@.subrange(0, 6));
    assert("Filter"@ =~= "Filter:"@.subrange(0, 6));
    assert("Filter: enter search term"@.subrange(0, 6)[0] == 'F');
    assert("Filter:"@.subrange(0, 6)[0] == 'F');
    assert("Import"@[0] != 'F' && "Export"@[0] != 'F' && "Rename"@[0] != 'F');
}

/// `d` in the browser removes the selected entry from the open archive.
pub proof fn law_delete(v: TuiView)
    requires
        v.screen is Browser,
        is_idle(v),
        v.open,
        v.file_selected < v.files.len(),
        v.files[v.file_selected as int].path.len() > 0,
    ensures
        pressed(v, Key::Char('d')).0 == v,
        pressed(v, Key::Char('d')).1 == ActionView::Delete(v.files[v.file_selected as int].path),
{
}

/// What is typed is added to the answer; Backspace takes the last character, Delete takes all, and
/// Esc stops asking. No other key but Enter does anything.
pub proof fn law_typing(v: TuiView, c: char)
    requires
        v.input.visible,
    ensures
        pressed(v, Key::Char(c)).0 == typed(v, v.input.buffer + seq![c]),
        v.input.buffer.len() > 0 ==> pressed(v, Key::Backspace).0 == typed(
            v,
            v.input.buffer.take(v.input.buffer.len() - 1),
        ),
        v.input.buffer.len() == 0 ==> pressed(v, Key::Backspace).0 == v,
        pressed(v, Key::Delete).0 == typed(v, Seq::<char>::empty()),
        pressed(v, Key::Esc).0 == unasked(v),
        pressed(v, Key::Esc).1 is Nothing,
        pressed(v, Key::Up).0 == v && pressed(v, Key::Down).0 == v,
        pressed(v, Key::PageUp).0 == v && pressed(v, Key::PageDown).0 == v,
        pressed(v, Key::Home).0 == v && pressed(v, Key::End).0 == v,
        pressed(v, Key::Other).0 == v,
{
    assert(v.input.buffer.push(c) =~= v.input.buffer + seq![c]);
    if v.input.buffer.len() > 0 {
        assert(v.input.buffer.drop_last() =~= v.input.buffer.take(v.input.buffer.len() - 1));
    } else {
        assert(pressed(v, Key::Backspace).0 =~= v);
    }
}

/// One step down leads to the next line and from the last to the first; one up to the line before
/// and from the first to the last.
pub proof fn law_steps(n: nat, at: usize)
    requires
        at < n <= usize::MAX,
    ensures
        at + 1 < n ==> stepped(n, at, 1) == at + 1,
        at + 1 == n ==> stepped(n, at, 1) == 0,
        at > 0 ==> stepped(n, at, -1) == at - 1,
        at == 0 ==> stepped(n, at, -1) == n - 1,
        chosen(at, n) == at,
        chosen(n as usize, n) == n - 1,
        stepped(0, at, 1) == 0,
        stepped(0, at, -1) == 0,
{
    let count = n as int;
    if at + 1 < n {
        vstd::arithmetic::div_mod::lemma_small_mod((at + 1) as nat, n);
    } else {
        vstd::arithmetic::div_mod::lemma_mod_self_0(count);
    }
    if at > 0 {
        vstd::arithmetic::div_mod::lemma_small_mod((at - 1) as nat, n);
    } else {
        vstd::arithmetic::div_mod::lemma_fundamental_div_mod_converse(-1, count, -1, count - 1);
    }
}

/// On the dashboard Esc and `q` quit, the arrows and `j` and `k` change the selected archive and
/// nothing else, and Enter and `o` open it.
pub proof fn law_dashboard_moves(v: TuiView, key: Key)
    requires
        v.screen is Dashboard,
        is_idle(v),
        v.selected_index < v.storages.len() <= usize::MAX,
    ensures
        ({
            let (after, action) = pressed(v, key);
            let n = v.storages.len();
            &&& key == Key::Esc || key == Key::Char('q') || key == Key::Char('Q') ==> after == (
            TuiView { should_quit: true, ..v }) && action is Nothing
            &&& key == Key::Down || key == Key::Char('j') ==> action is Nothing && after == (
            TuiView {
                selected_index: if v.selected_index + 1 < n {
                    (v.selected_index + 1) as usize
                } else {
                    0
                },
                ..v
            })
            &&& key == Key::Up || key == Key::Char('k') ==> action is Nothing && after == (TuiView {
                selected_index: if v.selected_index > 0 {
                    (v.selected_index - 1) as usize
                } else {
                    (n - 1) as usize
                },
                ..v
            })
            &&& key == Key::Enter || key == Key::Char('o') ==> after == v && action
                == ActionView::OpenListed(v.selected_index)
            &&& key == Key::Char('r') ==> after == v && action is ReloadConfig
            &&& key == Key::Char('s') ==> action is Nothing && after == (TuiView {
                screen: Screen::Settings,
                selected_index: 0,
                status: "Settings - manage auto-mount storages"@,
                ..v
            })
            &&& key == Key::Other || key == Key::Home || key == Key::End || key == Key::Delete
                || key == Key::Backspace || key == Key::PageUp || key == Key::PageDown ==> after
                == v && action is Nothing
            &&& v.should_quit || key == Key::Esc || key == Key::Char('q') || key == Key::Char('Q')
                || !after.should_quit
        }),
{
    law_steps(v.storages.len(), v.selected_index);
}

/// With nothing listed there is nothing to open, mount, unmount or forget.
pub proof fn law_empty_dashboard(v: TuiView, key: Key)
    requires
        v.screen is Dashboard,
        is_idle(v),
        v.storages.len() == 0,
        key == Key::Enter || key == Key::Char('o') || key == Key::Char('m') || key == Key::Char('u')
            || key == Key::Char('d'),
    ensures
        pressed(v, key).0 == v,
        pressed(v, key).1 is Nothing,
{
}

/// `c` on the dashboard asks for the file of a new archive, and the answer is created; `O` and `i`
/// ask for an existing one, and the answer is opened. An empty answer does nothing.
pub proof fn law_create_and_open(v: TuiView, key: Key, answer: Seq<char>)
    requires
        v.screen is Dashboard,
        is_idle(v),
        key == Key::Char('c') || key == Key::Char('O') || key == Key::Char('i'),
    ensures
        is_asking(v, key, Seq::<char>::empty()),
        ({
            let asked = pressed(v, key).0;
            let (after, action) = pressed(typed(asked, answer), Key::Enter);
            &&& after == if answer.len() == 0 && key != Key::Char('c') {
                said(unasked(typed(asked, answer)), "File not found"@)
            } else {
                unasked(typed(asked, answer))
            }
            &&& answer.len() == 0 ==> action is Nothing
            &&& answer.len() > 0 && key == Key::Char('c') ==> action == ActionView::CreateNew(
                answer,
            )
            &&& answer.len() > 0 && key != Key::Char('c') ==> action == ActionView::OpenPath(
                answer,
            )
        }),
{
    reveal_strlit("Create: enter path for new .moss file");
    reveal_strlit("Open: enter path to existing .moss file");
    reveal_strlit("Import: enter path to existing .moss file");
    reveal_strlit("Create:");
    reveal_strlit("Open:");
    reveal_strlit("Import:");
    assert("Create:"@ =~= "Create: enter path for new .moss file"@.subrange(0, 7));
    assert("Open:"@ =~= "Open: enter path to existing .moss file"@.subrange(0, 5));
    assert("Import:"@ =~= "Import: enter path to existing .moss file"@.subrange(0, 7));
    assert("Open: enter path to existing .moss file"@.subrange(0, 7)[0] == 'O');
    assert("Import: enter path to existing .moss file"@.subrange(0, 7)[0] == 'I');
    assert("Create:"@[0] == 'C');
}

/// `m` on the dashboard asks for a mount point of the selected archive, and offers the one that it
/// has. The answer mounts it.
pub proof fn law_mount_key(v: TuiView, answer: Seq<char>)
    requires
        v.screen is Dashboard,
        is_idle(v),
        v.selected_index < v.storages.len(),
    ensures
        is_asking(
            v,
            Key::Char('m'),
            v.storages[v.selected_index as int].config.mount_point,
        ),
        ({
            let asked = pressed(v, Key::Char('m')).0;
            let (after, action) = pressed(typed(asked, answer), Key::Enter);
            &&& after == unasked(typed(asked, answer))
            &&& action == if answer.len() > 0 {
                ActionView::Mount { index: v.selected_index, mount_point: answer }
            } else {
                ActionView::Nothing
            }
        }),
{
    reveal_strlit("Mount: enter mount point");
    reveal_strlit("Mount:");
    reveal_strlit("Create:");
    reveal_strlit("Open:");
    reveal_strlit("Import:");
    let prompt = "Mount: enter mount point"@;
    assert("Mount:"@ =~= prompt.subrange(0, 6));
    assert(prompt.subrange(0, 7)[0] == 'M' && prompt.subrange(0, 5)[0] == 'M');
    assert("Create:"@[0] == 'C' && "Open:"@[0] == 'O' && "Import:"@[0] == 'I');
}

/// `u` on the dashboard unmounts the selected archive from where it is mounted, with the process
/// that mounted it where one is known. What is not mounted is not unmounted.
pub proof fn law_unmount_key(v: TuiView)
    requires
        v.screen is Dashboard,
        is_idle(v),
        v.selected_index < v.storages.len(),
    ensures
        ({
            let (after, action) = pressed(v, Key::Char('u'));
            let entry = v.storages[v.selected_index as int];
            &&& entry.status == StorageStatus::Mounted ==> {
                &&& after == v
                &&& action is Unmount
                &&& action->Unmount_index == v.selected_index
                &&& action->Unmount_mount_point == entry.config.mount_point
                &&& v.mount_pids.contains_key(v.selected_index) ==> action->pid == Some(
                    v.mount_pids[v.selected_index],
                )
                &&& !v.mount_pids.contains_key(v.selected_index) ==> action->pid is None
            }
            &&& entry.status != StorageStatus::Mounted ==> action is Nothing && after == said(
                v,
                "Not mounted"@,
            )
        }),
{
}

/// An archive is forgotten after `d` and two times yes: it leaves both lists, and all others stay in
/// order. The configuration is saved then, and not before. No at either question leaves all as it
/// was.
pub proof fn law_forgetting(v: TuiView, yes: Key, again: Key, no: Key)
    requires
        v.screen is Dashboard,
        is_idle(v),
        v.selected_index < v.storages.len() <= usize::MAX,
        yes == Key::Enter || yes == Key::Char('y'),
        again == Key::Enter || again == Key::Char('y'),
        no == Key::Esc || no == Key::Char('n'),
    ensures
        ({
            let at = v.selected_index as int;
            let (first, nothing) = pressed(v, Key::Char('d'));
            let (second, still) = pressed(first, yes);
            let (third, action) = pressed(second, again);
            &&& nothing is Nothing && still is Nothing
            &&& first.storages == v.storages && first.config == v.config
            &&& second.storages == v.storages && second.config == v.config
            &&& action is SaveConfig
            &&& third.confirm is None
            &&& third.storages == v.storages.take(at) + v.storages.skip(at + 1)
            &&& at < v.config.len() ==> third.config == v.config.take(at) + v.config.skip(at + 1)
            &&& at >= v.config.len() ==> third.config == v.config
            &&& third.storages.len() > 0 ==> third.selected_index < third.storages.len()
            &&& at + 1 < v.storages.len() ==> third.selected_index == at
            &&& third == (TuiView {
                config: third.config,
                storages: third.storages,
                selected_index: third.selected_index,
                status: "Removed "@ + v.storages[at].config.path + " from config"@,
                ..v
            })
            &&& pressed(first, no).0.storages == v.storages
            &&& pressed(first, no).0.config == v.config
            &&& pressed(first, no).0.confirm is None
            &&& pressed(first, no).1 is Nothing
            &&& pressed(second, no).0.storages == v.storages
            &&& pressed(second, no).0.config == v.config
            &&& pressed(second, no).0.confirm is None
            &&& pressed(second, no).1 is Nothing
        }),
{
    let at = v.selected_index as int;
    assert(v.storages.remove(at) =~= v.storages.take(at) + v.storages.skip(at + 1));
    if at < v.config.len() {
        assert(v.config.remove(at) =~= v.config.take(at) + v.config.skip(at + 1));
    }
}

/// While a question is open, keys that are neither yes nor no do nothing.
pub proof fn law_questions(v: TuiView, key: Key)
    requires
        !v.input.visible,
        v.confirm is Some,
        key != Key::Enter,
        key != Key::Char('y'),
        key != Key::Char('n'),
        key != Key::Esc,
    ensures
        pressed(v, key).0 == v,
        pressed(v, key).1 is Nothing,
{
}

/// In the browser the arrows and `j` and `k` lead to the next and the previous of the listed files,
/// round the ends; pages lead twenty lines on, and not past the ends; Home and End lead to the first
/// and the last file.
pub proof fn law_browser_moves(v: TuiView, k: int)
    requires
        v.screen is Browser,
        is_idle(v),
        v.files.len() <= usize::MAX,
        0 <= k < shown(v).len(),
        shown(v)[k] == v.file_selected,
    ensures
        ({
            let lines = shown(v);
            let n = lines.len();
            &&& pressed(v, Key::Down).0.file_selected == if k + 1 < n {
                lines[k + 1]
            } else {
                lines[0]
            }
            &&& pressed(v, Key::Up).0.file_selected == if k > 0 {
                lines[k - 1]
            } else {
                lines[n - 1]
            }
            &&& pressed(v, Key::PageDown).0.file_selected == if k + 20 < n {
                lines[k + 20]
            } else {
                lines[n - 1]
            }
            &&& pressed(v, Key::PageUp).0.file_selected == if k >= 20 {
                lines[k - 20]
            } else {
                lines[0]
            }
            &&& pressed(v, Key::Home).0.file_selected == 0
            &&& pressed(v, Key::End).0.file_selected == v.files.len() - 1
            &&& pressed(v, Key::Char('j')) == pressed(v, Key::Down)
            &&& pressed(v, Key::Char('k')) == pressed(v, Key::Up)
        }),
{
    law_filter(v);
    lemma_first_place(shown(v), v.file_selected, k);
}

/// Keys that select a file change nothing but the selection and the preview.
pub proof fn law_selecting_changes_only_selection(v: TuiView, key: Key)
    requires
        v.screen is Browser,
        is_idle(v),
        key == Key::Up || key == Key::Down || key == Key::PageUp || key == Key::PageDown || key
            == Key::Home || key == Key::End || key == Key::Char('j') || key == Key::Char('k'),
    ensures
        ({
            let after = pressed(v, key).0;
            after == (TuiView {
                file_selected: after.file_selected,
                preview: after.preview,
                preview_scroll: 0,
                ..v
            })
        }),
{
}

/// The preview of a file or link of an open archive is read from the entry with its path; that of a
/// directory is not read. The head shows path, kind, and what is recorded of the path.
pub proof fn law_preview(v: TuiView)
    ensures
        ({
            let (after, action) = previewed(v);
            let line = v.files[v.file_selected as int];
            let on_line = v.file_selected < v.files.len();
            let meta = v.entries[line.path];
            let head = if v.entries.contains_key(line.path) {
                head_text(line.path, line.kind, Some((meta.block_length, meta.mode)))
            } else {
                head_text(line.path, line.kind, None)
            };
            &&& after == (TuiView { preview: after.preview, preview_scroll: 0, ..v })
            &&& !on_line ==> after.preview.len() == 0 && action is Nothing
            &&& on_line && line.kind != EntryKind::Directory && v.open ==> action
                == ActionView::Preview(line.path)
            &&& on_line && (line.kind == EntryKind::Directory || !v.open) ==> action is Nothing
            &&& on_line && line.kind != EntryKind::Directory ==> after.preview == head
            &&& on_line && line.kind == EntryKind::Directory ==> after.preview == head
                + "\n[directory]"@
        }),
{
}

/// Enter on a directory lists what lies below it, or all where the list is already limited to that.
/// Enter on a file previews it.
pub proof fn law_enter(v: TuiView, rest: Seq<char>)
    requires
        v.screen is Browser,
        is_idle(v),
    ensures
        ({
            let line = v.files[v.file_selected as int];
            let (after, action) = pressed(v, Key::Enter);
            let below = line.path + seq!['/'];
            let on_line = v.file_selected < v.files.len();
            let limited = v.filter.len() >= below.len() && v.filter.take(below.len() as int)
                == below;
            &&& !on_line ==> after == v && action is Nothing
            &&& on_line && line.kind != EntryKind::Directory ==> pressed(v, Key::Enter)
                == previewed(v)
            &&& on_line && line.kind == EntryKind::Directory ==> action is Nothing && after == if limited {
                TuiView { filter: Seq::<char>::empty(), ..v }
            } else {
                TuiView { filter: below, file_selected: 0, ..v }
            }
            &&& v.filter == below + rest ==> limited
        }),
{
    reveal_strlit("/");
    let line = v.files[v.file_selected as int];
    assert("/"@ =~= seq!['/']);
    let below = line.path + seq!['/'];
    assert((below + rest).take(below.len() as int) =~= below);
    if v.filter.len() >= below.len() {
        assert(v.filter.take(below.len() as int) =~= v.filter.subrange(0, below.len() as int));
    }
}

/// Leaving the browser closes the archive: it is not shown any more, and is listed as closed unless
/// it is mounted. All other archives stay as they are.
pub proof fn law_leaving_closes(v: TuiView, key: Key, i: int)
    requires
        v.screen is Browser,
        is_idle(v),
        key == Key::Esc || key == Key::Char('q'),
        0 <= i < v.storages.len(),
    ensures
        ({
            let (after, action) = pressed(v, key);
            let entry = v.storages[i];
            &&& action is Close
            &&& after.screen is Dashboard
            &&& !after.open && after.open_path.len() == 0 && after.files.len() == 0
            &&& after.preview.len() == 0
            &&& after.entries == Map::<Seq<char>, Meta>::empty()
            &&& after.storages.len() == v.storages.len()
            &&& after.storages[i].config == entry.config
            &&& entry.config.path == v.open_path && entry.status != StorageStatus::Mounted
                ==> after.storages[i].status == StorageStatus::Closed
            &&& entry.config.path != v.open_path || entry.status == StorageStatus::Mounted
                ==> after.storages[i].status == entry.status
            &&& after == (TuiView {
                screen: after.screen,
                open: false,
                open_path: after.open_path,
                files: after.files,
                preview: after.preview,
                entries: after.entries,
                storages: after.storages,
                status: "Storage closed"@,
                ..v
            })
        }),
{
}

/// In the settings Esc, `q` and `b` lead back to the dashboard and save; the arrows and `j` and `k`
/// change the selection and nothing else.
pub proof fn law_settings_moves(v: TuiView, key: Key)
    requires
        v.screen is Settings,
        is_idle(v),
        v.selected_index < v.config.len() <= usize::MAX,
    ensures
        ({
            let (after, action) = pressed(v, key);
            let n = v.config.len();
            &&& key == Key::Esc || key == Key::Char('q') || key == Key::Char('b') ==> action
                is SaveConfig && after == (TuiView {
                screen: Screen::Dashboard,
                status: "Settings saved"@,
                ..v
            })
            &&& key == Key::Down || key == Key::Char('j') ==> action is Nothing && after == (
            TuiView {
                selected_index: if v.selected_index + 1 < n {
                    (v.selected_index + 1) as usize
                } else {
                    0
                },
                ..v
            })
            &&& key == Key::Up || key == Key::Char('k') ==> action is Nothing && after == (TuiView {
                selected_index: if v.selected_index > 0 {
                    (v.selected_index - 1) as usize
                } else {
                    (n - 1) as usize
                },
                ..v
            })
            &&& key == Key::Char('a') ==> action is Nothing && after == said(
                v,
                "Storages already configured"@,
            )
            &&& key == Key::Other || key == Key::Enter ==> after == v && action is Nothing
        }),
{
    law_steps(v.config.len(), v.selected_index);
}

/// `d` in the settings takes the selected archive out of them, and all that have its path out of
/// the list; the others stay. That is saved.
pub proof fn law_settings_remove(v: TuiView, i: int)
    requires
        v.screen is Settings,
        is_idle(v),
        v.selected_index < v.config.len() <= usize::MAX,
        0 <= i < v.storages.len(),
    ensures
        ({
            let at = v.selected_index as int;
            let (after, action) = pressed(v, Key::Char('d'));
            &&& action is SaveConfig
            &&& after.config == v.config.take(at) + v.config.skip(at + 1)
            &&& after.storages.contains(v.storages[i]) <==> v.storages[i].config.path
                != v.config[at].path
            &&& forall|k: int|
                0 <= k < after.storages.len() ==> (#[trigger] after.storages[k]).config.path
                    != v.config[at].path
            &&& after.config.len() > 0 ==> after.selected_index < after.config.len()
            &&& at + 1 < v.config.len() ==> after.selected_index == at
            &&& after == (TuiView {
                config: after.config,
                storages: after.storages,
                selected_index: after.selected_index,
                status: "Removed "@ + v.config[at].path,
                ..v
            })
        }),
{
    let at = v.selected_index as int;
    let path = v.config[at].path;
    let stays = |entry: StorageEntryView| entry.config.path != path;
    let after = pressed(v, Key::Char('d')).0;
    assert(v.config.remove(at) =~= v.config.take(at) + v.config.skip(at + 1));
    lemma_filter(v.storages, stays);
    assert(v.storages.contains(v.storages[i]));
    assert forall|k: int| 0 <= k < after.storages.len() implies (
    #[trigger] after.storages[k]).config.path != path by {
        assert(after.storages.contains(after.storages[k]));
    }
}

/// A filter keeps just what it is meant to keep.
proof fn lemma_filter(s: Seq<StorageEntryView>, keep: spec_fn(StorageEntryView) -> bool)
    ensures
        forall|x: StorageEntryView| #[trigger]
            s.filter(keep).contains(x) <==> s.contains(x) && keep(x),
    decreases s.len(),
{
    reveal(Seq::filter);
    if s.len() > 0 {
        let less = s.drop_last();
        lemma_filter(less, keep);
        let some = less.filter(keep);
        let all = s.filter(keep);
        assert forall|x: StorageEntryView| #[trigger] all.contains(x) <==> s.contains(x) && keep(
            x,
        ) by {
            assert(s.contains(x) <==> less.contains(x) || x == s.last()) by {
                if s.contains(x) {
                    let i = choose|i: int| 0 <= i < s.len() && s[i] == x;
                    if i < less.len() {
                        assert(less[i] == x);
                    }
                }
                if less.contains(x) {
                    let i = choose|i: int| 0 <= i < less.len() && less[i] == x;
                    assert(s[i] == x);
                }
                assert(s[s.len() - 1] == s.last());
            }
            if keep(s.last()) {
                assert(all =~= some.push(s.last()));
                if some.contains(x) {
                    let i = choose|i: int| 0 <= i < some.len() && some[i] == x;
                    assert(all[i] == x);
                }
                assert(all[all.len() - 1] == s.last());
                if all.contains(x) {
                    let i = choose|i: int| 0 <= i < all.len() && all[i] == x;
                    if i < some.len() {
                        assert(some[i] == x);
                    }
                }
            } else {
                assert(all =~= some);
            }
        }
    }
}

/// `t` in the settings turns automatic mounting of the selected archive on or off, in both lists,
/// and nothing else; twice leaves it as it was. That is saved.
pub proof fn law_settings_toggle(v: TuiView)
    requires
        v.screen is Settings,
        is_idle(v),
        v.selected_index < v.config.len() <= usize::MAX,
        v.config.len() == v.storages.len(),
        v.storages[v.selected_index as int].config == v.config[v.selected_index as int],
    ensures
        ({
            let at = v.selected_index as int;
            let (after, action) = pressed(v, Key::Char('t'));
            let twice = pressed(after, Key::Char('t')).0;
            &&& action is SaveConfig
            &&& after.config.len() == v.config.len()
            &&& after.config[at].auto_mount == !v.config[at].auto_mount
            &&& after.config[at].path == v.config[at].path
            &&& after.config[at].mount_point == v.config[at].mount_point
            &&& after.storages[at].config == after.config[at]
            &&& after.storages[at].status == v.storages[at].status
            &&& forall|i: int|
                0 <= i < v.config.len() && i != at ==> #[trigger] after.config[i] == v.config[i]
            &&& forall|i: int|
                0 <= i < v.storages.len() && i != at ==> #[trigger] after.storages[i]
                    == v.storages[i]
            &&& twice.config == v.config && twice.storages == v.storages
            &&& after == (TuiView {
                config: after.config,
                storages: after.storages,
                status: if v.config[at].auto_mount {
                    "Auto-mount disabled for "@ + v.config[at].path
                } else {
                    "Auto-mount enabled for "@ + v.config[at].path
                },
                ..v
            })
        }),
{
    let at = v.selected_index as int;
    let after = pressed(v, Key::Char('t')).0;
    let twice = pressed(after, Key::Char('t')).0;
    assert(twice.config =~= v.config);
    assert(twice.storages =~= v.storages);
}

/// `m` in the settings asks for a mount point of the selected archive, and offers the one that it
/// has. The answer is its mount point, in both lists, and is saved.
pub proof fn law_settings_mount_point(v: TuiView, answer: Seq<char>)
    requires
        v.screen is Settings,
        is_idle(v),
        v.selected_index < v.config.len(),
    ensures
        ({
            let at = v.selected_index as int;
            let asked = pressed(v, Key::Char('m')).0;
            let (after, action) = pressed(typed(asked, answer), Key::Enter);
            &&& asked.input.visible && asked.input.buffer == v.config[at].mount_point
            &&& pressed(v, Key::Char('m')).1 is Nothing
            &&& action is SaveConfig
            &&& asked == (TuiView {
                input: asked.input,
                status: "Editing mount point for "@ + v.config[at].path,
                ..v
            })
            &&& after == (TuiView {
                config: after.config,
                storages: after.storages,
                status: "Set mount point for "@ + v.config[at].path,
                ..unasked(typed(asked, answer))
            })
            &&& after.config.len() == v.config.len() && after.storages.len() == v.storages.len()
            &&& after.config[at].mount_point == answer
            &&& after.config[at].path == v.config[at].path
            &&& after.config[at].auto_mount == v.config[at].auto_mount
            &&& at < v.storages.len() ==> after.storages[at].config.mount_point == answer
                && after.storages[at].config.path == v.storages[at].config.path
                && after.storages[at].status == v.storages[at].status
            &&& forall|i: int|
                0 <= i < v.config.len() && i != at ==> #[trigger] after.config[i] == v.config[i]
            &&& forall|i: int|
                0 <= i < v.storages.len() && i != at ==> #[trigger] after.storages[i]
                    == v.storages[i]
        }),
{
    reveal_strlit("Mount point for ");
    reveal_strlit(":");
    reveal_strlit("Mount point");
    reveal_strlit("Path:");
    let at = v.selected_index as int;
    let prompt = "Mount point for "@ + v.config[at].path + ":"@;
    assert("Mount point"@ =~= prompt.subrange(0, 11));
    assert(!"Path:"@.is_prefix_of(prompt)) by {
        assert("Path:"@[0] != prompt.subrange(0, 5)[0]);
    }
}

/// `a` in empty settings asks for an archive; of an answer with a space what stands before the space
/// is listed, without a mount point, and that is saved.
pub proof fn law_settings_add(v: TuiView, path: Seq<char>, rest: Seq<char>)
    requires
        v.screen is Settings,
        is_idle(v),
        v.config.len() == 0,
        !path.contains(' '),
    ensures
        is_asking(v, Key::Char('a'), Seq::<char>::empty()),
        ({
            let asked = pressed(v, Key::Char('a')).0;
            let (after, action) = pressed(typed(asked, path + seq![' '] + rest), Key::Enter);
            let plain = pressed(typed(asked, path), Key::Enter);
            &&& action is SaveConfig
            &&& after.config.len() == 1
            &&& after.config[0].path == path && after.config[0].mount_point.len() == 0
            &&& !after.config[0].auto_mount
            &&& after.storages.len() == v.storages.len() + 1
            &&& after.storages.last().config == after.config[0]
            &&& after.storages.last().status == StorageStatus::Closed
            &&& after.storages.drop_last() == v.storages
            &&& after == (TuiView {
                config: after.config,
                storages: after.storages,
                status: "Added "@ + path,
                ..unasked(typed(asked, path + seq![' '] + rest))
            })
            &&& plain.1 is Nothing && plain.0 == unasked(typed(asked, path))
        }),
{
    reveal_strlit("Path: enter path to .moss file");
    reveal_strlit("Path:");
    assert("Path:"@ =~= "Path: enter path to .moss file"@.subrange(0, 5));
    lemma_space(path, rest);
    let asked = pressed(v, Key::Char('a')).0;
    let after = pressed(typed(asked, path + seq![' '] + rest), Key::Enter).0;
    assert(after.storages.drop_last() =~= v.storages);
}

/// The interface starts on the dashboard, with every configured archive listed as closed, and with
/// nothing open, asked or mounted.
pub proof fn law_start(config: Seq<StorageConfigView>)
    ensures
        ({
            let v = started(config);
            &&& v.config == config
            &&& v.storages.len() == config.len()
            &&& forall|i: int|
                0 <= i < config.len() ==> (#[trigger] v.storages[i]).config == config[i]
                    && v.storages[i].status == StorageStatus::Closed
            &&& v.screen is Dashboard && is_idle(v) && !v.open && !v.should_quit
            &&& v.selected_index == 0 && v.file_selected == 0
            &&& v.files.len() == 0 && v.filter.len() == 0 && v.preview.len() == 0
            &&& v.open_path.len() == 0 && v.mounted_count == 0
            &&& v.entries == Map::<Seq<char>, Meta>::empty()
            &&& v.mount_pids == Map::<usize, u32>::empty()
            &&& v.status == "Welcome to Moss Project"@
        }),
{
}

/// An archive that was opened is browsed from its first file, without a filter. It alone is listed
/// as open by that.
pub proof fn law_opened(v: TuiView, index: int, entries: Map<Seq<char>, Meta>)
    requires
        0 <= index < v.storages.len(),
    ensures
        ({
            let after = opened(v, index, entries);
            &&& after.open && after.open_path == v.storages[index].config.path
            &&& after.screen is Browser
            &&& after.entries == entries
            &&& after.file_selected == 0 && after.filter.len() == 0 && after.preview.len() == 0
            &&& after.storages.len() == v.storages.len()
            &&& after.storages[index].status == StorageStatus::Open
            &&& after.storages[index].config == v.storages[index].config
            &&& forall|i: int|
                0 <= i < v.storages.len() && i != index ==> #[trigger] after.storages[i]
                    == v.storages[i]
            &&& after.files == file_lines(entries)
            &&& after == (TuiView {
                open: true,
                open_path: after.open_path,
                screen: after.screen,
                entries,
                files: after.files,
                file_selected: 0,
                scroll_offset: 0,
                filter: after.filter,
                preview: after.preview,
                storages: after.storages,
                status: "Opened "@ + v.storages[index].config.path,
                ..v
            })
        }),
{
}

/// After a removal, an import or a move the browser shows the entries as they are, and selects a
/// file that is there.
pub proof fn law_shown_after_change(v: TuiView, entries: Map<Seq<char>, Meta>, count: nat)
    requires
        file_lines(entries).len() <= usize::MAX,
    ensures
        ({
            let gone = deleted(v, entries, count);
            let shown = showing(v, entries);
            &&& gone.entries == entries && shown.entries == entries
            &&& gone.files == file_lines(entries) && shown.files == file_lines(entries)
            &&& gone.files.len() > 0 ==> gone.file_selected < gone.files.len()
            &&& v.file_selected < gone.files.len() ==> gone.file_selected == v.file_selected
            &&& gone.files.len() == 0 ==> gone.file_selected == 0
            &&& v.file_selected >= gone.files.len() > 0 ==> gone.file_selected == gone.files.len()
                - 1
            &&& gone.preview.len() == 0
            &&& gone == (TuiView {
                entries,
                files: gone.files,
                file_selected: gone.file_selected,
                preview: gone.preview,
                status: gone.status,
                ..v
            })
            &&& gone.status == "Deleted "@ + decimal(count) + " item(s)"@
            &&& shown == (TuiView { entries, files: shown.files, ..v })
        }),
{
}

/// An archive that was created or found is added at the end of both lists, closed and without a
/// mount point. All others stay.
pub proof fn law_listed(v: TuiView, path: Seq<char>)
    ensures
        ({
            let after = listed(v, path);
            &&& after.config.len() == v.config.len() + 1
            &&& after.config.drop_last() == v.config
            &&& after.config.last().path == path
            &&& after.config.last().mount_point.len() == 0 && !after.config.last().auto_mount
            &&& after.storages.drop_last() == v.storages
            &&& after.storages.len() == v.storages.len() + 1
            &&& after.storages.last().config == after.config.last()
            &&& after.storages.last().status == StorageStatus::Closed
            &&& after == (TuiView { config: after.config, storages: after.storages, ..v })
        }),
{
    let after = listed(v, path);
    assert(after.config.drop_last() =~= v.config);
    assert(after.storages.drop_last() =~= v.storages);
}

/// Mounting and unmounting an archive changes how it is listed and how many are mounted; unmounting
/// undoes what mounting did.
pub proof fn law_mount_and_unmount(v: TuiView, index: usize, mount_point: Seq<char>)
    requires
        index < v.storages.len(),
        v.mounted_count < usize::MAX,
    ensures
        ({
            let up = mounted(v, index as int);
            let at = mounted_at(up, index as int, mount_point);
            let down = unmounted(at, index);
            &&& up.storages[index as int].status == StorageStatus::Mounted
            &&& up.storages[index as int].config == v.storages[index as int].config
            &&& up.mounted_count == v.mounted_count + 1
            &&& at.storages[index as int].config.mount_point == mount_point
            &&& at.storages[index as int].config.path == v.storages[index as int].config.path
            &&& at.storages[index as int].status == StorageStatus::Mounted
            &&& index < v.config.len() ==> at.config[index as int].mount_point == mount_point
                && at.config[index as int].path == v.config[index as int].path
            &&& down.storages[index as int].status == StorageStatus::Closed
            &&& down.mounted_count == v.mounted_count
            &&& !down.mount_pids.contains_key(index)
            &&& down.mount_pids == v.mount_pids.remove(index)
            &&& forall|i: int|
                0 <= i < v.storages.len() && i != index ==> #[trigger] down.storages[i]
                    == v.storages[i]
            &&& up == (TuiView {
                storages: up.storages,
                mounted_count: up.mounted_count,
                ..v
            })
            &&& at == (TuiView { storages: at.storages, config: at.config, ..up })
            &&& down == (TuiView {
                storages: down.storages,
                mounted_count: down.mounted_count,
                mount_pids: down.mount_pids,
                status: "Unmounted "@ + mount_point,
                ..at
            })
            &&& forall|i: int|
                0 <= i < v.config.len() && i != index ==> #[trigger] at.config[i] == v.config[i]
            &&& save_if_listed(v, index as int) == if index < v.config.len() {
                ActionView::SaveConfig
            } else {
                ActionView::Nothing
            }
        }),
{
}

/// Settings that were read again count for the archives that they name, and change no path and no
/// use.
pub proof fn law_refresh(v: TuiView, config: Seq<StorageConfigView>, i: int, k: int)
    requires
        0 <= i < v.storages.len(),
    ensures
        ({
            let after = refreshed(v, config);
            let entry = v.storages[i];
            &&& after.storages.len() == v.storages.len()
            &&& after.storages[i].config.path == entry.config.path
            &&& after.storages[i].status == entry.status
            &&& 0 <= k < config.len() && config[k].path == entry.config.path && (forall|j: int|
                0 <= j < k ==> (#[trigger] config[j]).path != entry.config.path)
                ==> after.storages[i].config == config[k]
            &&& (forall|j: int|
                0 <= j < config.len() ==> (#[trigger] config[j]).path != entry.config.path)
                ==> after.storages[i] == entry
            &&& after == (TuiView {
                storages: after.storages,
                status: "Config refreshed"@,
                ..v
            })
        }),
{
    let entry = v.storages[i];
    let paths = crate::tui::config_paths(config);
    if 0 <= k < config.len() && config[k].path == entry.config.path && (forall|j: int|
        0 <= j < k ==> (#[trigger] config[j]).path != entry.config.path) {
        assert forall|j: int| 0 <= j < k implies paths[j] != entry.config.path by {
            assert(config[j].path != entry.config.path);
        }
        lemma_first_place(paths, entry.config.path, k);
        assert(reconfigured(entry, config).config =~= config[k]);
    }
    if forall|j: int| 0 <= j < config.len() ==> (#[trigger] config[j]).path != entry.config.path {
        assert forall|j: int| 0 <= j < paths.len() implies paths[j] != entry.config.path by {
            assert(config[j].path != entry.config.path);
        }
        lemma_first_place(paths, entry.config.path, paths.len() as int);
    }
}

/// A message is shown, and nothing else changes.
pub proof fn law_message(v: TuiView, message: Seq<char>)
    ensures
        said(v, message).status == message,
        said(v, message) == (TuiView { status: said(v, message).status, ..v }),
{
}

/// How a message about a failure begins.
pub proof fn law_failure_messages()
    ensures
        failure_text(Failure::Open) == "Failed to open: "@,
        failure_text(Failure::Create) == "Failed to create: "@,
        failure_text(Failure::Import) == "Failed to import: "@,
        failure_text(Failure::Export) == "Failed to read: "@,
        failure_text(Failure::Delete) == "Failed to delete: "@,
        failure_text(Failure::Rename) == "Failed to rename: "@,
        failure_text(Failure::MountPoint) == "Failed to create mount point: "@,
        failure_text(Failure::Mount) == "Mount failed: "@,
        failure_text(Failure::OpenForMount) == "Failed to open storage: "@,
{
}

/// What is asked before something is done says what will be done, and is asked more firmly the
/// second time. Yes to the first question shows the second, and no says that nothing is done.
pub proof fn law_question_words(v: TuiView, index: usize, path: Seq<char>)
    requires
        !v.input.visible,
        v.confirm is Some,
        (v.confirm->0).stage == 1,
    ensures
        question(ConfirmView { kind: ConfirmKindView::DeleteStorage(index), stage: 1 })
            == "Delete this entry? (y/n)"@,
        question(ConfirmView { kind: ConfirmKindView::DeleteStorage(index), stage: 2 })
            == "Are you really sure? This cannot be undone. (y/n)"@,
        question(ConfirmView { kind: ConfirmKindView::OverwriteCreate(path), stage: 1 })
            == "File already exists. Overwrite? (y/n) \u{2014} stage 1 of 2"@,
        question(ConfirmView { kind: ConfirmKindView::OverwriteCreate(path), stage: 2 })
            == "Are you really sure? This will destroy existing data. (y/n) \u{2014} stage 2 of 2"@,
        ({
            let second = pressed(v, Key::Char('y')).0;
            let third = pressed(second, Key::Char('n')).0;
            &&& second.confirm == Some(ConfirmView { stage: 2, ..v.confirm->0 })
            &&& second == said(
                TuiView { confirm: second.confirm, ..v },
                question(second.confirm->0),
            )
            &&& pressed(v, Key::Enter).0 == second
            &&& third == said(TuiView { confirm: None, ..v }, "Cancelled."@)
            &&& pressed(v, Key::Char('n')).0 == third
            &&& pressed(v, Key::Esc).0 == third
        }),
{
}

/// Where the selection lies behind the end of the list, the keys mean the last archive.
pub proof fn law_stale_selection(v: TuiView)
    requires
        v.screen is Dashboard,
        is_idle(v),
        0 < v.storages.len() <= v.selected_index,
    ensures
        ({
            let last = (v.storages.len() - 1) as usize;
            let there = TuiView { selected_index: last, ..v };
            &&& pressed(v, Key::Enter) == (v, ActionView::OpenListed(last))
            &&& pressed(v, Key::Char('o')) == pressed(v, Key::Enter)
            &&& pressed(v, Key::Char('m')).0.input == pressed(there, Key::Char('m')).0.input
            &&& pressed(v, Key::Char('u')).1 == pressed(there, Key::Char('u')).1
            &&& pressed(v, Key::Char('d')).0.confirm == pressed(there, Key::Char('d')).0.confirm
            &&& pressed(v, Key::Char('d')).0.confirm == Some(
                ConfirmView { kind: ConfirmKindView::DeleteStorage(last), stage: 1 },
            )
        }),
{
}

/// `d` on the dashboard puts the first question about the selected archive, and changes nothing
/// else.
pub proof fn law_forgetting_is_asked(v: TuiView)
    requires
        v.screen is Dashboard,
        is_idle(v),
        v.selected_index < v.storages.len(),
    ensures
        ({
            let confirm = ConfirmView {
                kind: ConfirmKindView::DeleteStorage(v.selected_index),
                stage: 1,
            };
            pressed(v, Key::Char('d')).0 == said(
                TuiView { confirm: Some(confirm), ..v },
                question(confirm),
            )
        }),
{
}

/// Where the selected file is not listed, the keys that move start from the ends of the list; in an
/// empty list there is nowhere to go.
pub proof fn law_browser_moves_from_outside(v: TuiView)
    requires
        v.screen is Browser,
        is_idle(v),
        v.files.len() <= usize::MAX,
        !shown(v).contains(v.file_selected),
    ensures
        ({
            let lines = shown(v);
            let n = lines.len();
            let at = v.file_selected;
            &&& n > 0 ==> pressed(v, Key::Down).0.file_selected == lines[0]
            &&& n > 0 ==> pressed(v, Key::Up).0.file_selected == lines[n - 1]
            &&& n > 20 ==> pressed(v, Key::PageDown).0.file_selected == lines[20]
            &&& 0 < n <= 20 ==> pressed(v, Key::PageDown).0.file_selected == lines[n - 1]
            &&& n > 0 ==> pressed(v, Key::PageUp).0.file_selected == lines[0]
            &&& n == 0 ==> pressed(v, Key::Down).0.file_selected == 0
            &&& n == 0 ==> pressed(v, Key::Up).0.file_selected == 0
            &&& n == 0 ==> pressed(v, Key::PageDown).0.file_selected == at
            &&& n == 0 ==> pressed(v, Key::PageUp).0.file_selected == at
            &&& v.files.len() == 0 ==> pressed(v, Key::Home).0.file_selected == at
            &&& v.files.len() == 0 ==> pressed(v, Key::End).0.file_selected == at
        }),
{
    let lines = shown(v);
    assert forall|k: int| 0 <= k < lines.len() implies lines[k] != v.file_selected by {
        if lines[k] == v.file_selected {
            assert(lines.contains(v.file_selected));
        }
    }
    lemma_first_place(lines, v.file_selected, lines.len() as int);
}

/// The preview that goes with a newly selected file is that file's.
pub proof fn law_selecting_previews(v: TuiView, key: Key)
    requires
        v.screen is Browser,
        is_idle(v),
        key == Key::Up || key == Key::Down || key == Key::PageUp || key == Key::PageDown || key
            == Key::Home || key == Key::End,
    ensures
        pressed(v, key) == previewed(
            TuiView { file_selected: pressed(v, key).0.file_selected, ..v },
        ),
{
}

/// In the browser `h` and `?` name the keys. The root is neither removed nor renamed; without a
/// selected file, and without an open archive, nothing is removed. Other keys do nothing.
pub proof fn law_browser_refusals(v: TuiView, key: Key)
    requires
        v.screen is Browser,
        is_idle(v),
    ensures
        ({
            let (after, action) = pressed(v, key);
            let line = v.files[v.file_selected as int];
            let on_line = v.file_selected < v.files.len();
            &&& key == Key::Char('h') || key == Key::Char('?') ==> action is Nothing && after
                == said(v, "i:import e:export d:delete r:rename f:filter q:back"@)
            &&& !on_line && (key == Key::Char('d') || key == Key::Char('r') || key == Key::Char(
                'e',
            )) ==> after == v && action is Nothing
            &&& on_line && line.path.len() == 0 && key == Key::Char('d') ==> action is Nothing
                && after == said(v, "Cannot delete root"@)
            &&& on_line && line.path.len() == 0 && key == Key::Char('r') ==> action is Nothing
                && after == said(v, "Cannot rename root"@)
            &&& on_line && line.path.len() > 0 && !v.open && key == Key::Char('d') ==> action
                is Nothing && after == v
            &&& key == Key::Other || key == Key::Delete || key == Key::Backspace || key
                == Key::Char('x') ==> action is Nothing && after == v
        }),
{
}

/// An archive that is not listed cannot be unmounted.
pub proof fn law_unmount_unlisted(v: TuiView, index: usize)
    requires
        index >= v.storages.len(),
    ensures
        unmounted(v, index) == said(v, "Invalid storage index"@),
{
}

} // verus!
