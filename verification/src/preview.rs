//! What is shown of an entry before it is opened.
use vstd::prelude::*;
use vstd::utf8::{decode_utf8, valid_utf8};
use crate::entry::EntryKind;
use crate::number::{decimal, push_decimal};
use crate::size::{format_size, size_text};
use crate::text::{decode_text, push_chars, push_text, to_chars};

verus! {

/// The most lines of a text that are shown.
pub const MAX_LINES: usize = 500;

/// The most bytes of other data that are shown.
pub const HEX_LIMIT: usize = 256;

/// A digit in a base of up to sixteen.
pub open spec fn base_digit(n: nat) -> char {
    if n < 10 {
        (n + 48) as char
    } else {
        (n + 87) as char
    }
}

/// `n` in a base of up to sixteen.
pub open spec fn in_base(n: nat, base: nat) -> Seq<char>
    decreases n,
{
    if n < base || base < 2 {
        seq![base_digit(n)]
    } else {
        proof {
            assert(n / base < n) by (nonlinear_arith)
                requires
                    n >= base,
                    base >= 2,
            ;
        }
        in_base(n / base, base).push(base_digit(n % base))
    }
}

/// `text` with zeros in front, up to `width` characters.
pub open spec fn padded(text: Seq<char>, width: nat) -> Seq<char> {
    if text.len() >= width {
        text
    } else {
        Seq::new((width - text.len()) as nat, |i: int| '0') + text
    }
}

/// A byte in a dump: two digits and a space.
pub open spec fn hex_byte(byte: u8) -> Seq<char> {
    padded(in_base(byte as nat, 16), 2).push(' ')
}

/// Some bytes in a dump.
pub open spec fn hex_bytes(bytes: Seq<u8>) -> Seq<char>
    decreases bytes.len(),
{
    if bytes.len() == 0 {
        Seq::<char>::empty()
    } else {
        hex_bytes(bytes.drop_last()) + hex_byte(bytes.last())
    }
}

/// The row of a dump that begins at `at`: its offset and up to sixteen bytes.
pub open spec fn hex_row(data: Seq<u8>, at: int) -> Seq<char> {
    let end = if at + 16 > data.len() {
        data.len() as int
    } else {
        at + 16
    };
    padded(in_base(at as nat, 16), 8) + "  "@ + hex_bytes(data.subrange(at, end)) + seq!['\n']
}

/// The rows of a dump from `at` on.
pub open spec fn hex_rows(data: Seq<u8>, at: int) -> Seq<char>
    decreases
            if at < data.len() {
                data.len() - at
            } else {
                0
            },
{
    if at < 0 || at >= data.len() {
        Seq::<char>::empty()
    } else {
        hex_row(data, at) + hex_rows(data, at + 16)
    }
}

/// A dump of up to `limit` bytes.
pub open spec fn hex_text(data: Seq<u8>, limit: nat) -> Seq<char> {
    if data.len() > limit {
        hex_rows(data.take(limit as int), 0) + "... preview truncated ..."@
    } else {
        hex_rows(data, 0)
    }
}

/// A line without the carriage return before its line feed.
pub open spec fn without_return(line: Seq<char>) -> Seq<char> {
    if line.len() > 0 && line.last() == '\r' {
        line.drop_last()
    } else {
        line
    }
}

/// The lines of a text that end with a line feed, and what follows the last of these.
pub open spec fn broken(text: Seq<char>) -> (Seq<Seq<char>>, Seq<char>)
    decreases text.len(),
{
    if text.len() == 0 {
        (Seq::<Seq<char>>::empty(), Seq::<char>::empty())
    } else {
        let (done, current) = broken(text.drop_last());
        if text.last() == '\n' {
            (done.push(without_return(current)), Seq::<char>::empty())
        } else {
            (done, current.push(text.last()))
        }
    }
}

/// The lines of a text.
pub open spec fn lines_of(text: Seq<char>) -> Seq<Seq<char>> {
    let (done, current) = broken(text);
    if current.len() == 0 {
        done
    } else {
        done.push(current)
    }
}

/// Lines with a line feed behind each.
pub open spec fn with_breaks(lines: Seq<Seq<char>>) -> Seq<char>
    decreases lines.len(),
{
    if lines.len() == 0 {
        Seq::<char>::empty()
    } else {
        with_breaks(lines.drop_last()) + lines.last().push('\n')
    }
}

/// As many lines of a text as are shown.
pub open spec fn shown_lines(lines: Seq<Seq<char>>) -> Seq<char> {
    if lines.len() > MAX_LINES {
        with_breaks(lines.take(MAX_LINES as int)) + "... "@ + decimal(
            (lines.len() - MAX_LINES) as nat,
        ) + " more lines"@
    } else {
        with_breaks(lines)
    }
}

/// What is shown of the contents of a file.
pub open spec fn content_text(data: Seq<u8>) -> Seq<char> {
    "\n--- content ("@ + decimal(data.len()) + " bytes) ---\n\n"@ + if data.len() == 0 {
        "[empty]"@
    } else if valid_utf8(data) {
        shown_lines(lines_of(decode_utf8(data)))
    } else {
        "[binary data]\n\n"@ + hex_text(data, HEX_LIMIT as nat)
    }
}

/// The name of a kind of entry.
pub open spec fn kind_name(kind: EntryKind) -> Seq<char> {
    match kind {
        EntryKind::File => "file"@,
        EntryKind::Directory => "directory"@,
        EntryKind::Symlink => "symlink"@,
    }
}

/// What is shown of an entry itself; size and mode only where it is recorded.
pub open spec fn head_text(path: Seq<char>, kind: EntryKind, recorded: Option<(u64, u16)>) -> Seq<
    char,
> {
    "Path: "@ + path + "\nType: "@ + kind_name(kind) + match recorded {
        Some((size, mode)) => "\nSize: "@ + size_text(size) + "\nMode: "@ + padded(
            in_base(mode as nat, 8),
            4,
        ) + "\n"@,
        None => "\nSize: 0 B\n"@,
    }
}

fn digit_of(n: u64) -> (r: char)
    requires
        n < 16,
    ensures
        r == base_digit(n as nat),
{
    if n < 10 {
        (48u8 + n as u8) as char
    } else {
        (87u8 + n as u8) as char
    }
}

/// `n` in a base of up to sixteen.
fn digits(n: u64, base: u64) -> (r: Vec<char>)
    requires
        2 <= base <= 16,
    ensures
        r@ == in_base(n as nat, base as nat),
    decreases n,
{
    let mut r: Vec<char> = Vec::new();
    if n >= base {
        assert(n / base < n) by (nonlinear_arith)
            requires
                n >= base,
                base >= 2,
        ;
        r = digits(n / base, base);
    }
    assert(n % base < base) by (nonlinear_arith)
        requires
            base >= 2,
    ;
    r.push(digit_of(n % base));
    proof {
        if n < base {
            assert(n % base == n) by (nonlinear_arith)
                requires
                    n < base,
            ;
            assert(r@ =~= seq![base_digit(n as nat)]);
        }
    }
    r
}

/// Appends `n` in a base of up to sixteen, with zeros in front up to `width` characters.
fn push_padded(out: &mut String, n: u64, base: u64, width: usize)
    requires
        2 <= base <= 16,
    ensures
        final(out)@ == old(out)@ + padded(in_base(n as nat, base as nat), width as nat),
{
    let text: Vec<char> = digits(n, base);
    let ghost start = out@;
    let mut i: usize = text.len();
    let ghost zeros = |k: int| '0';
    assert(out@ =~= start + Seq::new(0, zeros));
    #[verifier::loop_isolation(false)]
    while i < width
        invariant
            text.len() <= i,
            i <= width || i == text.len(),
            out@ == start + Seq::new((i - text.len()) as nat, |k: int| '0'),
        decreases width - i,
    {
        out.push('0');
        i += 1;
        assert(out@ =~= start + Seq::new((i - text.len()) as nat, |k: int| '0'));
    }
    push_chars(out, text.as_slice());
    assert(out@ =~= start + padded(text@, width as nat));
}

/// Appends the row of a dump that begins at `at`.
fn push_row(out: &mut String, data: &[u8], at: usize)
    requires
        at < data.len(),
    ensures
        final(out)@ == old(out)@ + hex_row(data@, at as int),
{
    let end: usize = if data.len() - at > 16 {
        at + 16
    } else {
        data.len()
    };
    let ghost before = out@;
    let ghost row = data@.subrange(at as int, end as int);
    push_padded(out, at as u64, 16, 8);
    push_text(out, "  ");
    let ghost start = out@;
    let mut i: usize = at;
    assert(row.take(0) =~= Seq::<u8>::empty());
    assert(out@ =~= start + hex_bytes(row.take(0)));
    #[verifier::loop_isolation(false)]
    while i < end
        invariant
            at <= i <= end,
            out@ == start + hex_bytes(row.take(i - at)),
        decreases end - i,
    {
        let ghost held = out@;
        push_padded(out, data[i] as u64, 16, 2);
        out.push(' ');
        proof {
            assert(row.take(i + 1 - at).drop_last() =~= row.take(i - at));
            assert(row.take(i + 1 - at).last() == data@[i as int]);
            assert(out@ =~= held + hex_byte(data@[i as int]));
            assert(out@ =~= start + hex_bytes(row.take(i + 1 - at)));
        }
        i += 1;
    }
    out.push('\n');
    assert(row.take(end - at) =~= row);
    assert(out@ =~= before + hex_row(data@, at as int));
}

/// A dump of up to `limit` bytes, sixteen in a row.
pub fn hex_preview(data: &[u8], limit: usize) -> (r: String)
    ensures
        r@ == hex_text(data@, limit as nat),
{
    let n: usize = if data.len() > limit {
        limit
    } else {
        data.len()
    };
    let shown: &[u8] = vstd::slice::slice_subrange(data, 0, n);
    let mut out: String = String::new();
    let mut at: usize = 0;
    assert(out@ + hex_rows(shown@, 0) =~= hex_rows(shown@, 0));
    while at < n
        invariant
            at <= n,
            n == shown.len(),
            out@ + hex_rows(shown@, at as int) == hex_rows(shown@, 0),
        decreases n - at,
    {
        let ghost before = out@;
        push_row(&mut out, shown, at);
        let ghost rest = hex_rows(shown@, at + 16);
        assert(out@ + rest =~= before + hex_rows(shown@, at as int));
        if n - at > 16 {
            at += 16;
        } else {
            proof {
                assert(rest =~= Seq::<char>::empty());
                assert(hex_rows(shown@, n as int) =~= Seq::<char>::empty());
            }
            at = n;
        }
    }
    assert(hex_rows(shown@, at as int) =~= Seq::<char>::empty());
    assert(out@ =~= hex_rows(shown@, 0));
    if data.len() > limit {
        push_text(&mut out, "... preview truncated ...");
        assert(shown@ =~= data@.take(limit as int));
        assert(out@ =~= hex_text(data@, limit as nat));
    } else {
        assert(shown@ =~= data@);
    }
    out
}

/// The lines of a text.
fn text_lines(text: &[char]) -> (r: Vec<Vec<char>>)
    ensures
        r@.map_values(|line: Vec<char>| line@) == lines_of(text@),
{
    let mut done: Vec<Vec<char>> = Vec::new();
    let mut current: Vec<char> = Vec::new();
    let mut i: usize = 0;
    assert(text@.take(0) =~= Seq::<char>::empty());
    assert(done@.map_values(|line: Vec<char>| line@) =~= Seq::<Seq<char>>::empty());
    #[verifier::loop_isolation(false)]
    while i < text.len()
        invariant
            i <= text.len(),
            (done@.map_values(|line: Vec<char>| line@), current@) == broken(text@.take(i as int)),
        decreases text.len() - i,
    {
        let ghost lines = done@.map_values(|line: Vec<char>| line@);
        proof {
            assert(text@.take(i + 1).drop_last() =~= text@.take(i as int));
            assert(text@.take(i + 1).last() == text@[i as int]);
        }
        if text[i] == '\n' {
            let ghost held = current@;
            let mut line: Vec<char> = current;
            let n: usize = line.len();
            if n > 0 && line[n - 1] == '\r' {
                line.pop();
                assert(line@ =~= held.drop_last());
            }
            let ghost kept = line@;
            done.push(line);
            current = Vec::new();
            assert(done@.map_values(|line: Vec<char>| line@) =~= lines.push(kept));
            assert(current@ =~= Seq::<char>::empty());
        } else {
            current.push(text[i]);
        }
        i += 1;
    }
    assert(text@.take(i as int) =~= text@);
    let ghost lines = done@.map_values(|line: Vec<char>| line@);
    if current.len() > 0 {
        let ghost last = current@;
        done.push(current);
        assert(done@.map_values(|line: Vec<char>| line@) =~= lines.push(last));
    }
    done
}

/// Appends as many lines of a text as are shown.
fn push_lines(out: &mut String, text: &[char])
    ensures
        final(out)@ == old(out)@ + shown_lines(lines_of(text@)),
{
    let lines: Vec<Vec<char>> = text_lines(text);
    let ghost all = lines_of(text@);
    let ghost start = out@;
    let n: usize = if lines.len() > MAX_LINES {
        MAX_LINES
    } else {
        lines.len()
    };
    let mut i: usize = 0;
    assert(lines.len() == all.len());
    assert(all.take(0) =~= Seq::<Seq<char>>::empty());
    assert(out@ =~= start + with_breaks(all.take(0)));
    #[verifier::loop_isolation(false)]
    while i < n
        invariant
            i <= n,
            out@ == start + with_breaks(all.take(i as int)),
        decreases n - i,
    {
        let ghost before = out@;
        assert(lines@[i as int]@ == all[i as int]);
        push_chars(out, lines[i].as_slice());
        out.push('\n');
        proof {
            assert(all.take(i + 1).drop_last() =~= all.take(i as int));
            assert(out@ =~= before + all[i as int].push('\n'));
            assert(out@ =~= start + with_breaks(all.take(i + 1)));
        }
        i += 1;
    }
    if lines.len() > MAX_LINES {
        push_text(out, "... ");
        push_decimal(out, (lines.len() - MAX_LINES) as u64);
        push_text(out, " more lines");
    } else {
        assert(all.take(i as int) =~= all);
    }
    assert(out@ =~= start + shown_lines(all));
}

/// Appends what is shown of the contents of a file.
pub fn push_content(out: &mut String, data: &[u8])
    ensures
        final(out)@ == old(out)@ + content_text(data@),
{
    let ghost start = out@;
    push_text(out, "\n--- content (");
    push_decimal(out, data.len() as u64);
    push_text(out, " bytes) ---\n\n");
    if data.len() == 0 {
        push_text(out, "[empty]");
    } else {
        let mut copy: Vec<u8> = Vec::new();
        copy.extend_from_slice(data);
        assert(copy@ =~= data@);
        match decode_text(copy) {
            Some(text) => push_lines(out, to_chars(text.as_str()).as_slice()),
            None => {
                push_text(out, "[binary data]\n\n");
                let hex: String = hex_preview(data, HEX_LIMIT);
                push_text(out, hex.as_str());
            },
        }
    }
    assert(out@ =~= start + content_text(data@));
}

/// What is shown of an entry itself.
pub fn preview_head(path: &str, kind: EntryKind, recorded: Option<(u64, u16)>) -> (r: String)
    ensures
        r@ == head_text(path@, kind, recorded),
{
    let mut out: String = String::new();
    push_text(&mut out, "Path: ");
    push_text(&mut out, path);
    push_text(&mut out, "\nType: ");
    let name: &str = match kind {
        EntryKind::File => "file",
        EntryKind::Directory => "directory",
        EntryKind::Symlink => "symlink",
    };
    push_text(&mut out, name);
    match recorded {
        Some((size, mode)) => {
            push_text(&mut out, "\nSize: ");
            let text: String = format_size(size);
            push_text(&mut out, text.as_str());
            push_text(&mut out, "\nMode: ");
            push_padded(&mut out, mode as u64, 8, 4);
            push_text(&mut out, "\n");
        },
        None => {
            push_text(&mut out, "\nSize: 0 B\n");
        },
    }
    assert(out@ =~= head_text(path@, kind, recorded));
    out
}

} // verus!
