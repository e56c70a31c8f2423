//! What holds of the text interface, whatever keys are pressed.
use vstd::prelude::*;
use crate::browser::{contains_text, file_lines, line_for, lowercased, matching, TreeNodeView};
use crate::entry::{EntryView, Meta};
use crate::index::{is_listing, lemma_listing_map, listing_of};
use crate::layout::{all_canonical, first_under, lemma_first_under, lemma_needed, lemma_prefix,
    needed, prefix_path, with_prefixes};
use crate::outcome::opened;
use crate::path::{is_canonical, is_under, parent_of, split};
use crate::tui::{first_place, lemma_first_place, pressed, shown, stepped, ActionView,
    ConfirmKindView, ConfirmView, Key, TuiView};

verus! {

/// The key that means yes.
pub open spec fn is_yes(key: Key) -> bool {
    key == Key::Enter || key == Key::Char('y')
}

/// A file is overwritten only after the user was asked, said yes, was asked again and said yes
/// again.
pub proof fn law_overwriting_is_confirmed_twice(v: TuiView, key: Key)
    ensures
        pressed(v, key).1 is Create ==> {
            &&& is_yes(key)
            &&& v.confirm is Some
            &&& (v.confirm->0).stage >= 2
            &&& (v.confirm->0).kind == ConfirmKindView::OverwriteCreate(pressed(v, key).1->Create_0)
        },
        pressed(v, key).0.confirm is Some && (pressed(v, key).0.confirm->0).stage >= 2 ==> {
            &&& v.confirm is Some
            &&& v.confirm == pressed(v, key).0.confirm || is_yes(key)
        },
        v.confirm is None && pressed(v, key).0.confirm is Some ==> (
        pressed(v, key).0.confirm->0).stage == 1,
{
}

/// Two times yes, and the file is overwritten; one time no, and it is not.
pub proof fn law_overwriting_takes_two_answers(v: TuiView, path: Seq<char>, yes: Key, again: Key)
    requires
        !v.input.visible,
        v.confirm == Some(
            ConfirmView { kind: ConfirmKindView::OverwriteCreate(path), stage: 1 },
        ),
        is_yes(yes),
        is_yes(again),
    ensures
        pressed(v, yes).1 is Nothing,
        pressed(pressed(v, yes).0, again).1 == ActionView::Create(path),
        pressed(pressed(v, yes).0, again).0.confirm is None,
        pressed(v, Key::Esc).0.confirm is None,
        pressed(v, Key::Esc).1 is Nothing,
        pressed(pressed(v, yes).0, Key::Esc).0.confirm is None,
        pressed(pressed(v, yes).0, Key::Esc).1 is Nothing,
{
}

/// On the dashboard and in the browser no key takes an archive out of the lists, but for yes to a
/// question that is put for the second time.
pub proof fn law_forgetting_is_confirmed_twice(v: TuiView, key: Key)
    requires
        !(v.screen is Settings),
    ensures
        pressed(v, key).0.storages.len() >= v.storages.len() || {
            &&& is_yes(key)
            &&& !v.input.visible
            &&& v.confirm is Some
            &&& (v.confirm->0).stage >= 2
            &&& (v.confirm->0).kind is DeleteStorage
        },
        pressed(v, key).0.config.len() >= v.config.len() || {
            &&& is_yes(key)
            &&& !v.input.visible
            &&& v.confirm is Some
            &&& (v.confirm->0).stage >= 2
            &&& (v.confirm->0).kind is DeleteStorage
        },
{
}

/// While an answer is being typed, no key but Enter does anything else than change the answer.
pub proof fn law_typing_changes_only_the_answer(v: TuiView, key: Key)
    requires
        v.input.visible,
        key != Key::Enter,
    ensures
        pressed(v, key).1 is Nothing,
        pressed(v, key).0 == (TuiView { input: pressed(v, key).0.input, ..v }),
        pressed(v, key).0.input.prompt == v.input.prompt,
{
}

/// Backspace takes back the character that was typed last.
pub proof fn law_backspace_takes_back(v: TuiView, c: char)
    requires
        v.input.visible,
    ensures
        pressed(pressed(v, Key::Char(c)).0, Key::Backspace).0 == v,
{
    assert(v.input.buffer.push(c).drop_last() =~= v.input.buffer);
    assert(pressed(pressed(v, Key::Char(c)).0, Key::Backspace).0 =~= v);
}

/// One line down and one line up lead back, and so do one up and one down.
pub proof fn law_steps_lead_back(n: nat, at: usize)
    requires
        at < n <= usize::MAX,
    ensures
        stepped(n, stepped(n, at, 1), -1) == at,
        stepped(n, stepped(n, at, -1), 1) == at,
        stepped(n, at, 1) < n,
        stepped(n, at, -1) < n,
{
    let count = n as int;
    vstd::arithmetic::div_mod::lemma_small_mod(at as nat, n);
    if at + 1 < n {
        vstd::arithmetic::div_mod::lemma_small_mod((at + 1) as nat, n);
    } else {
        vstd::arithmetic::div_mod::lemma_mod_self_0(count);
        vstd::arithmetic::div_mod::lemma_fundamental_div_mod_converse(-1, count, -1, count - 1);
    }
    if at > 0 {
        vstd::arithmetic::div_mod::lemma_small_mod((at - 1) as nat, n);
    } else {
        vstd::arithmetic::div_mod::lemma_fundamental_div_mod_converse(-1, count, -1, count - 1);
        vstd::arithmetic::div_mod::lemma_mod_self_0(count);
    }
}

/// What a list that is searched shows is exactly what holds the text, in order.
pub proof fn lemma_matching(texts: Seq<Seq<char>>, needle: Seq<char>)
    requires
        texts.len() <= usize::MAX,
    ensures
        forall|k: int|
            0 <= k < matching(texts, needle).len() ==> {
                &&& (#[trigger] matching(texts, needle)[k]) < texts.len()
                &&& contains_text(texts[matching(texts, needle)[k] as int], needle)
            },
        forall|j: int, k: int|
            0 <= j < k < matching(texts, needle).len() ==> (#[trigger] matching(texts, needle)[j])
                < (#[trigger] matching(texts, needle)[k]),
        forall|i: int|
            0 <= i < texts.len() && contains_text(#[trigger] texts[i], needle) ==> matching(
                texts,
                needle,
            ).contains(i as usize),
    decreases texts.len(),
{
    if texts.len() > 0 {
        let less = texts.drop_last();
        lemma_matching(less, needle);
        let before = matching(less, needle);
        let all = matching(texts, needle);
        assert forall|i: int|
            0 <= i < texts.len() && contains_text(#[trigger] texts[i], needle) implies all.contains(
            i as usize,
        ) by {
            if i < less.len() {
                assert(less[i] == texts[i]);
                let k = choose|k: int| 0 <= k < before.len() && before[k] == i as usize;
                assert(all[k] == i as usize);
            } else {
                assert(all[before.len() as int] == i as usize);
            }
        }
        assert forall|k: int| 0 <= k < all.len() implies (#[trigger] all[k]) < texts.len()
            && contains_text(texts[all[k] as int], needle) by {
            if k < before.len() {
                assert(all[k] == before[k]);
            }
        }
        assert forall|j: int, k: int| 0 <= j < k < all.len() implies (#[trigger] all[j]) < (
        #[trigger] all[k]) by {
            assert(all[j] == before[j]);
            if k < before.len() {
                assert(all[k] == before[k]);
            }
        }
    }
}

/// The browser lists exactly the files whose path holds the filter, whatever the case of the
/// letters, each once and in the order of the list; without a filter it lists all.
pub proof fn law_filter(v: TuiView)
    requires
        v.files.len() <= usize::MAX,
    ensures
        forall|i: int|
            0 <= i < v.files.len() ==> (#[trigger] shown(v).contains(i as usize) <==> (
            v.filter.len() == 0 || contains_text(
                lowercased(v.files[i].path),
                lowercased(v.filter),
            ))),
        forall|k: int| 0 <= k < shown(v).len() ==> (#[trigger] shown(v)[k]) < v.files.len(),
        forall|j: int, k: int|
            0 <= j < k < shown(v).len() ==> (#[trigger] shown(v)[j]) < (#[trigger] shown(v)[k]),
{
    if v.filter.len() == 0 {
        assert forall|i: int| 0 <= i < v.files.len() implies #[trigger] shown(v).contains(
            i as usize,
        ) by {
            assert(shown(v)[i] == i as usize);
        }
    } else {
        let texts = v.files.map_values(|line: TreeNodeView| lowercased(line.path));
        lemma_matching(texts, lowercased(v.filter));
        assert forall|i: int| 0 <= i < v.files.len() implies (#[trigger] shown(v).contains(
            i as usize,
        ) <==> contains_text(lowercased(v.files[i].path), lowercased(v.filter))) by {
            assert(texts[i] == lowercased(v.files[i].path));
            if shown(v).contains(i as usize) {
                let k = choose|k: int| 0 <= k < shown(v).len() && shown(v)[k] == i as usize;
                assert(contains_text(texts[shown(v)[k] as int], lowercased(v.filter)));
            }
        }
    }
}

/// What stands in a list that holds nothing twice stands at one place only.
proof fn lemma_place(lines: Seq<usize>, k: int)
    requires
        0 <= k < lines.len(),
        forall|i: int, j: int|
            0 <= i < j < lines.len() ==> (#[trigger] lines[i]) < (#[trigger] lines[j]),
    ensures
        first_place(lines, lines[k]) == k,
{
    lemma_first_place(lines, lines[k], k);
}

/// Up and down keep to the files that the browser lists, and the one leads back from where the
/// other led.
pub proof fn law_browsing_leads_back(v: TuiView)
    requires
        v.screen is Browser,
        !v.input.visible,
        v.confirm is None,
        v.files.len() <= usize::MAX,
        shown(v).contains(v.file_selected),
    ensures
        ({
            let down = pressed(v, Key::Down).0;
            let up = pressed(v, Key::Up).0;
            &&& shown(down) == shown(v)
            &&& shown(v).contains(down.file_selected)
            &&& pressed(down, Key::Up).0.file_selected == v.file_selected
            &&& shown(up) == shown(v)
            &&& shown(v).contains(up.file_selected)
            &&& pressed(up, Key::Down).0.file_selected == v.file_selected
        }),
{
    law_filter(v);
    let lines = shown(v);
    let k = choose|k: int| 0 <= k < lines.len() && lines[k] == v.file_selected;
    lemma_place(lines, k);
    let after = if k + 1 < lines.len() {
        k + 1
    } else {
        0
    };
    let before = if k > 0 {
        k - 1
    } else {
        lines.len() - 1
    };
    lemma_place(lines, after);
    lemma_place(lines, before);
    assert(lines.contains(lines[after]));
    assert(lines.contains(lines[before]));
}

/// Pages too keep to the files that the browser lists.
pub proof fn law_paging_keeps_to_the_list(v: TuiView, key: Key)
    requires
        v.screen is Browser,
        !v.input.visible,
        v.confirm is None,
        shown(v).len() > 0,
        key == Key::Up || key == Key::Down || key == Key::PageUp || key == Key::PageDown,
    ensures
        shown(v).contains(pressed(v, key).0.file_selected),
{
    let lines = shown(v);
    lemma_place_bound(lines, v.file_selected);
    assert forall|i: int| 0 <= i < lines.len() implies lines.contains(#[trigger] lines[i]) by {}
}

proof fn lemma_place_bound<A>(s: Seq<A>, x: A)
    ensures
        first_place(s, x) <= s.len(),
    decreases s.len(),
{
    if s.len() > 0 && s[0] != x {
        lemma_place_bound(s.drop_first(), x);
    }
}

/// An archive that was closed, opened and closed again is closed, and nothing of it is shown.
pub proof fn law_open_then_close(v: TuiView, index: int, entries: Map<Seq<char>, Meta>)
    requires
        0 <= index < v.storages.len(),
        !v.input.visible,
        v.confirm is None,
    ensures
        ({
            let there = opened(v, index, entries);
            let back = pressed(there, Key::Esc).0;
            &&& there.screen is Browser
            &&& there.files == file_lines(entries)
            &&& pressed(there, Key::Esc).1 is Close
            &&& back.screen is Dashboard
            &&& !back.open
            &&& back.files.len() == 0
            &&& back.storages[index].status is Closed
            &&& back.storages[index].config == v.storages[index].config
        }),
{
}

/// Every path of `paths` comes after that of its directory.
spec fn parents_first(paths: Seq<Seq<char>>) -> bool {
    forall|i: int|
        #![trigger paths[i]]
        0 <= i < paths.len() ==> parent_of(paths[i]).len() == 0 || exists|j: int|
            0 <= j < i && #[trigger] paths[j] == parent_of(paths[i])
}

proof fn lemma_with_prefixes_parents(paths: Seq<Seq<char>>, path: Seq<char>, k: nat)
    requires
        is_canonical(path),
        parents_first(paths),
        k <= split(path).len(),
    ensures
        parents_first(with_prefixes(paths, split(path), k)),
        k > 0 ==> with_prefixes(paths, split(path), k).contains(
            prefix_path(split(path), k as int),
        ),
    decreases k,
{
    if k > 0 {
        let parts = split(path);
        let before = with_prefixes(paths, parts, (k - 1) as nat);
        let here = prefix_path(parts, k as int);
        lemma_with_prefixes_parents(paths, path, (k - 1) as nat);
        lemma_prefix(path, k as int);
        if !before.contains(here) {
            let after = before.push(here);
            assert forall|i: int| #![trigger after[i]] 0 <= i < after.len() implies parent_of(
                after[i],
            ).len() == 0 || exists|j: int|
                0 <= j < i && #[trigger] after[j] == parent_of(after[i]) by {
                if i < before.len() {
                    assert(after[i] == before[i]);
                    if parent_of(before[i]).len() > 0 {
                        let j = choose|j: int|
                            0 <= j < i && #[trigger] before[j] == parent_of(before[i]);
                        assert(after[j] == before[j]);
                    }
                } else if k > 1 {
                    let j = choose|j: int|
                        0 <= j < before.len() && before[j] == prefix_path(parts, k - 1);
                    assert(after[j] == before[j]);
                }
            }
            assert(after[before.len() as int] == here);
        }
    }
}

proof fn lemma_needed_parents(listing: Seq<EntryView>)
    requires
        all_canonical(listing),
    ensures
        parents_first(needed(listing)),
    decreases listing.len(),
{
    if listing.len() > 0 {
        let less = listing.drop_last();
        assert forall|i: int| 0 <= i < less.len() implies is_canonical(
            (#[trigger] less[i]).path,
        ) by {
            assert(less[i] == listing[i]);
        }
        lemma_needed_parents(less);
        let path = listing[listing.len() - 1].path;
        lemma_with_prefixes_parents(needed(less), path, split(path).len());
    }
}

/// `entries` can be those of an archive.
pub open spec fn are_entries(entries: Map<Seq<char>, Meta>) -> bool {
    &&& is_listing(listing_of(entries), entries)
    &&& forall|path: Seq<char>| #[trigger] entries.contains_key(path) ==> is_canonical(path)
}

proof fn lemma_entries(entries: Map<Seq<char>, Meta>)
    requires
        are_entries(entries),
    ensures
        all_canonical(listing_of(entries)),
{
    let listing = listing_of(entries);
    lemma_listing_map(listing);
    assert forall|i: int| 0 <= i < listing.len() implies is_canonical(
        (#[trigger] listing[i]).path,
    ) by {
        assert(entries.contains_key(listing[i].path));
    }
}

/// The list of files shows every entry of an archive, under its own kind.
pub proof fn law_list_shows_entry(entries: Map<Seq<char>, Meta>, path: Seq<char>)
    requires
        are_entries(entries),
        entries.contains_key(path),
    ensures
        exists|i: int|
            0 <= i < file_lines(entries).len() && #[trigger] file_lines(entries)[i] == line_for(
                entries,
                path,
            ),
        line_for(entries, path).path == path,
        line_for(entries, path).kind == entries[path].kind,
{
    let listing = listing_of(entries);
    let paths = needed(listing);
    lemma_listing_map(listing);
    lemma_entries(entries);
    lemma_needed(listing);
    let n = choose|n: int| 0 <= n < listing.len() && (#[trigger] listing[n]).path == path;
    lemma_first_under(listing, path);
    assert(is_under(listing[n].path, path));
    assert(first_under(listing, path) is Some);
    assert(paths.contains(path));
    let i = choose|i: int| 0 <= i < paths.len() && paths[i] == path;
    assert(file_lines(entries)[i] == line_for(entries, path));
}

/// The list of files shows nothing twice.
pub proof fn law_list_shows_once(entries: Map<Seq<char>, Meta>, i: int, j: int)
    requires
        are_entries(entries),
        0 <= i < j < file_lines(entries).len(),
    ensures
        file_lines(entries)[i].path != file_lines(entries)[j].path,
{
    lemma_entries(entries);
    lemma_needed(listing_of(entries));
    assert(needed(listing_of(entries))[i] != needed(listing_of(entries))[j]);
}

/// The list of files shows every directory before what it holds.
pub proof fn law_list_shows_directories_first(entries: Map<Seq<char>, Meta>, i: int)
    requires
        are_entries(entries),
        0 <= i < file_lines(entries).len(),
    ensures
        ({
            let parent = parent_of(file_lines(entries)[i].path);
            parent.len() == 0 || exists|j: int|
                0 <= j < i && (#[trigger] file_lines(entries)[j]).path == parent
        }),
{
    let paths = needed(listing_of(entries));
    lemma_entries(entries);
    lemma_needed_parents(listing_of(entries));
    assert(file_lines(entries)[i].path == paths[i]);
    if parent_of(paths[i]).len() > 0 {
        let j = choose|j: int| 0 <= j < i && #[trigger] paths[j] == parent_of(paths[i]);
        assert(file_lines(entries)[j].path == paths[j]);
    }
}

/// The list of files shows nothing that has no entry at it or below it.
pub proof fn law_list_shows_only_archive(entries: Map<Seq<char>, Meta>, i: int)
    requires
        are_entries(entries),
        0 <= i < file_lines(entries).len(),
    ensures
        exists|path: Seq<char>| #[trigger]
            entries.contains_key(path) && is_under(path, file_lines(entries)[i].path),
{
    let listing = listing_of(entries);
    let paths = needed(listing);
    lemma_listing_map(listing);
    lemma_entries(entries);
    lemma_needed(listing);
    assert(file_lines(entries)[i].path == paths[i]);
    lemma_first_under(listing, paths[i]);
    let entry = first_under(listing, paths[i])->0;
    assert(entries.contains_key(entry.path));
}

} // verus!
