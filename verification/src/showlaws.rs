//! What the texts that people read owe to what they show.
use vstd::arithmetic::div_mod::lemma_fundamental_div_mod;
use vstd::prelude::*;
use vstd::utf8::{decode_utf8, encode_utf8, valid_utf8};
use crate::browser::{contains_text, line_for, matching, occurs_at, TreeNodeView};
use crate::config::StorageConfigView;
use crate::entry::{EntryKind, Meta};
use crate::idle::IdleCheckpoint;
use crate::labels::{file_text, filled, indented, path_text, settings_text, status_text, title_text,
    use_text};
use crate::mount::{after_release, following, mount_following, release_words, MountStep,
    UnmountStep};
use crate::number::{decimal, digit};
use crate::outcome::Failure;
use crate::path::{lemma_split_around, lemma_split_pieces, lemma_split_single, split, unseparated};
use crate::preview::{broken, content_text, head_text, hex_byte, hex_bytes, hex_row, hex_rows,
    hex_text, in_base, lines_of, padded, shown_lines, with_breaks};
use crate::size::{excess, rounded, size_text, to_53_bits, unit_name, unit_size};
use crate::text::{bytes_precede, precedes, precedes_at};
use crate::time::{timestamp_at, Timestamp};
use crate::tui::{StorageEntryView, StorageStatus};

verus! {

/// What a digit stands for.
pub open spec fn digit_value(c: char) -> int {
    if '0' <= c && c <= '9' {
        c as int - '0' as int
    } else if 'a' <= c && c <= 'f' {
        10 + c as int - 'a' as int
    } else {
        -1
    }
}

/// The number that digits make up.
pub open spec fn read_in(text: Seq<char>, base: nat) -> int
    decreases text.len(),
{
    if text.len() == 0 {
        0
    } else {
        read_in(text.drop_last(), base) * base + digit_value(text.last())
    }
}

/// A number that is written out reads as itself. Only digits are written, and no zero comes first
/// but the one of zero itself.
pub proof fn law_written_number(n: nat, base: nat)
    requires
        2 <= base <= 16,
    ensures
        read_in(in_base(n, base), base) == n,
        forall|i: int|
            0 <= i < in_base(n, base).len() ==> 0 <= digit_value(#[trigger] in_base(n, base)[i])
                < base,
        in_base(n, base).len() > 0,
        n > 0 ==> in_base(n, base)[0] != '0',
        n == 0 ==> in_base(n, base).len() == 1,
    decreases n,
{
    let text = in_base(n, base);
    if n < base {
        assert(text.drop_last() =~= Seq::<char>::empty());
        assert(read_in(text.drop_last(), base) == 0);
        assert(0 * base == 0) by (nonlinear_arith);
    } else {
        assert(n / base < n && n / base > 0) by (nonlinear_arith)
            requires
                n >= base,
                base >= 2,
        ;
        law_written_number(n / base, base);
        lemma_fundamental_div_mod(n as int, base as int);
        assert(n % base < base) by (nonlinear_arith)
            requires
                base >= 2,
        ;
        assert(text.drop_last() =~= in_base(n / base, base));
        assert(base * (n / base) == (n / base) * base) by (nonlinear_arith);
    }
}

/// A count that is written out reads as itself, in decimal and without a zero before it.
pub proof fn law_written_count(n: nat)
    ensures
        read_in(decimal(n), 10) == n,
        forall|i: int| 0 <= i < decimal(n).len() ==> '0' <= #[trigger] decimal(n)[i] <= '9',
        n > 0 ==> decimal(n)[0] != '0',
        decimal(n).len() > 0,
        n < 10 ==> decimal(n).len() == 1,
    decreases n,
{
    let text = decimal(n);
    if n < 10 {
        assert(text.drop_last() =~= Seq::<char>::empty());
        assert(read_in(text.drop_last(), 10) == 0);
    } else {
        law_written_count(n / 10);
        assert(text.drop_last() =~= decimal(n / 10));
    }
}

/// Zeros in front are as many as are lacking, and change no number.
pub proof fn law_padding(text: Seq<char>, width: nat, base: nat)
    ensures
        padded(text, width).len() == if text.len() < width {
            width
        } else {
            text.len()
        },
        padded(text, width).skip(padded(text, width).len() - text.len()) == text,
        forall|i: int|
            0 <= i < padded(text, width).len() - text.len() ==> #[trigger] padded(text, width)[i]
                == '0',
        read_in(padded(text, width), base) == read_in(text, base),
{
    let all = padded(text, width);
    assert(all.skip(all.len() - text.len()) =~= text);
    if text.len() < width {
        lemma_zeros((width - text.len()) as nat, text, base);
    }
}

proof fn lemma_zeros(count: nat, text: Seq<char>, base: nat)
    ensures
        read_in(Seq::new(count, |i: int| '0') + text, base) == read_in(text, base),
    decreases count, text.len(),
{
    let zeros = Seq::new(count, |i: int| '0');
    let all = zeros + text;
    if text.len() > 0 {
        lemma_zeros(count, text.drop_last(), base);
        assert(all.drop_last() =~= zeros + text.drop_last());
    } else if count > 0 {
        let less = Seq::new((count - 1) as nat, |i: int| '0');
        lemma_zeros((count - 1) as nat, text, base);
        assert(all.drop_last() =~= less + text);
        assert(0 * base == 0) by (nonlinear_arith);
    }
}

/// A byte in a dump is two digits that read as it, and a space.
pub proof fn law_dumped_byte(byte: u8)
    ensures
        hex_byte(byte).len() == 3,
        read_in(hex_byte(byte).take(2), 16) == byte,
        0 <= digit_value(hex_byte(byte)[0]) < 16,
        0 <= digit_value(hex_byte(byte)[1]) < 16,
        hex_byte(byte)[2] == ' ',
{
    let text = in_base(byte as nat, 16);
    law_written_number(byte as nat, 16);
    law_padding(text, 2, 16);
    reveal_with_fuel(in_base, 3);
    assert(text.len() <= 2);
    let both = padded(text, 2);
    assert(hex_byte(byte).take(2) =~= both);
    assert(both.skip(2 - text.len())[text.len() - 1] == text[text.len() - 1]);
    assert(both.skip(2 - text.len())[0] == text[0]);
    assert(hex_byte(byte)[0] == both[0]);
    assert(hex_byte(byte)[1] == both[1]);
}

/// Bytes in a dump stand one after the other.
proof fn lemma_dumped_bytes(bytes: Seq<u8>, i: int)
    ensures
        hex_bytes(bytes).len() == 3 * bytes.len(),
        0 <= i < bytes.len() ==> hex_bytes(bytes).subrange(3 * i, 3 * i + 3) == hex_byte(bytes[i]),
    decreases bytes.len(),
{
    if bytes.len() > 0 {
        lemma_dumped_bytes(bytes.drop_last(), i);
        law_dumped_byte(bytes.last());
        let all = hex_bytes(bytes);
        let before = hex_bytes(bytes.drop_last());
        if 0 <= i < bytes.len() - 1 {
            assert(all.subrange(3 * i, 3 * i + 3) =~= before.subrange(3 * i, 3 * i + 3));
        } else if i == bytes.len() - 1 {
            assert(all.subrange(3 * i, 3 * i + 3) =~= hex_byte(bytes.last()));
        }
    }
}

spec fn sixteen_to(k: nat) -> nat
    decreases k,
{
    if k == 0 {
        1
    } else {
        16 * sixteen_to((k - 1) as nat)
    }
}

proof fn lemma_hex_length(n: nat, k: nat)
    requires
        n < sixteen_to(k),
        k > 0,
    ensures
        in_base(n, 16).len() <= k,
    decreases k,
{
    if n >= 16 {
        if k == 1 {
            assert(sixteen_to(0) == 1);
        } else {
            lemma_hex_length(n / 16, (k - 1) as nat);
        }
    }
}

/// A row of a dump is its offset in eight digits, two spaces and up to sixteen bytes, and ends with
/// a line feed.
pub proof fn law_dumped_row(data: Seq<u8>, at: int, i: int)
    requires
        0 <= at < data.len(),
        at < 0x1_0000_0000,
    ensures
        ({
            let row = hex_row(data, at);
            let count = if data.len() - at < 16 {
                data.len() - at
            } else {
                16
            };
            &&& row.len() == 11 + 3 * count
            &&& read_in(row.take(8), 16) == at
            &&& row[8] == ' ' && row[9] == ' '
            &&& 0 <= i < count ==> row.subrange(10 + 3 * i, 13 + 3 * i) == hex_byte(data[at + i])
            &&& row.last() == '\n'
        }),
{
    reveal_strlit("  ");
    reveal_with_fuel(sixteen_to, 9);
    let row = hex_row(data, at);
    let end = if at + 16 > data.len() {
        data.len() as int
    } else {
        at + 16
    };
    let part = data.subrange(at, end);
    let offset = padded(in_base(at as nat, 16), 8);
    lemma_hex_length(at as nat, 8);
    law_written_number(at as nat, 16);
    law_padding(in_base(at as nat, 16), 8, 16);
    lemma_dumped_bytes(part, i);
    assert(row.take(8) =~= offset);
    if 0 <= i < part.len() {
        assert(row.subrange(10 + 3 * i, 13 + 3 * i) =~= hex_bytes(part).subrange(
            3 * i,
            3 * i + 3,
        ));
    }
}

proof fn lemma_dumped_rows(data: Seq<u8>, at: int, i: int)
    requires
        0 <= at,
        data.len() <= 0x1_0000_0000,
    ensures
        at <= i < data.len() ==> {
            let place = ((i - at) / 16) * 59 + 10 + 3 * ((i - at) % 16);
            &&& place + 3 <= hex_rows(data, at).len()
            &&& hex_rows(data, at).subrange(place, place + 3) == hex_byte(data[i])
        },
    decreases
            if at < data.len() {
                data.len() - at
            } else {
                0
            },
{
    if at <= i < data.len() {
        let row = hex_row(data, at);
        let rest = hex_rows(data, at + 16);
        let all = hex_rows(data, at);
        let place = ((i - at) / 16) * 59 + 10 + 3 * ((i - at) % 16);
        law_dumped_row(data, at, i - at);
        if i < at + 16 {
            assert(all.subrange(place, place + 3) =~= row.subrange(place, place + 3));
        } else {
            lemma_dumped_rows(data, at + 16, i);
            let there = ((i - at - 16) / 16) * 59 + 10 + 3 * ((i - at - 16) % 16);
            assert((i - at) / 16 == (i - at - 16) / 16 + 1);
            assert((i - at) % 16 == (i - at - 16) % 16);
            assert(place == there + 59);
            assert(all.subrange(place, place + 3) =~= rest.subrange(there, there + 3));
        }
    }
}

/// A dump shows every byte up to the limit at its place: sixteen in each row. What lies behind the
/// limit is only said to be left out.
pub proof fn law_dump(data: Seq<u8>, limit: nat, i: int)
    requires
        limit <= 0x1_0000_0000,
    ensures
        ({
            let place = (i / 16) * 59 + 10 + 3 * (i % 16);
            0 <= i < data.len() && i < limit ==> place + 3 <= hex_text(data, limit).len()
                && hex_text(data, limit).subrange(place, place + 3) == hex_byte(data[i])
        }),
        data.len() > limit ==> hex_text(data, limit) == hex_text(data.take(limit as int), limit)
            + "... preview truncated ..."@,
        data.len() == 0 ==> hex_text(data, limit).len() == 0,
        0 < data.len() <= limit && data.len() <= 16 ==> hex_text(data, limit) == hex_row(data, 0),
{
    let seen = if data.len() > limit {
        data.take(limit as int)
    } else {
        data
    };
    lemma_dumped_rows(seen, 0, i);
    let place = (i / 16) * 59 + 10 + 3 * (i % 16);
    if 0 <= i < seen.len() {
        assert(hex_text(data, limit).subrange(place, place + 3) =~= hex_rows(seen, 0).subrange(
            place,
            place + 3,
        ));
    }
    if 0 < data.len() <= limit && data.len() <= 16 {
        assert(hex_rows(data, 16) =~= Seq::<char>::empty());
        assert(hex_rows(data, 0) =~= hex_row(data, 0));
    }
}

proof fn lemma_broken(text: Seq<char>, line: Seq<char>)
    requires
        forall|i: int| 0 <= i < line.len() ==> #[trigger] line[i] != '\n',
    ensures
        broken(text + line) == (broken(text).0, broken(text).1 + line),
    decreases line.len(),
{
    let all = text + line;
    if line.len() == 0 {
        assert(all =~= text);
        assert(broken(text).1 + line =~= broken(text).1);
    } else {
        let less = line.drop_last();
        assert forall|i: int| 0 <= i < less.len() implies #[trigger] less[i] != '\n' by {
            assert(less[i] == line[i]);
        }
        lemma_broken(text, less);
        assert(all.drop_last() =~= text + less);
        assert(all.last() == line[line.len() - 1]);
        assert((broken(text).1 + less).push(line.last()) =~= broken(text).1 + line);
    }
}

/// A text that ends with a line feed, and a further line: the line is the last one, with or without
/// a line feed or a carriage return and a line feed behind it. An empty rest is no line.
pub proof fn law_lines(text: Seq<char>, line: Seq<char>)
    requires
        text.len() == 0 || text.last() == '\n',
        forall|i: int| 0 <= i < line.len() ==> #[trigger] line[i] != '\n',
    ensures
        lines_of(Seq::<char>::empty()).len() == 0,
        line.len() == 0 || line.last() != '\r' ==> lines_of(text + line + seq!['\n']) == lines_of(
            text,
        ).push(line),
        lines_of(text + line + seq!['\r', '\n']) == lines_of(text).push(line),
        line.len() > 0 ==> lines_of(text + line) == lines_of(text).push(line),
{
    lemma_broken(text, line);
    let plain = text + line + seq!['\n'];
    assert(plain.drop_last() =~= text + line);
    assert(broken(text).1 + line =~= line);
    let returned = line.push('\r');
    assert forall|i: int| 0 <= i < returned.len() implies #[trigger] returned[i] != '\n' by {
        if i < line.len() {
            assert(returned[i] == line[i]);
        }
    }
    lemma_broken(text, returned);
    assert(broken(text).1 + returned =~= returned);
    let both = text + line + seq!['\r', '\n'];
    assert(both.drop_last() =~= text + returned);
    assert(returned.drop_last() =~= line);
}

/// Lines are shown in order, each with a line feed behind it. Of more than five hundred the first
/// five hundred are shown, and how many are not.
pub proof fn law_shown_lines(lines: Seq<Seq<char>>, line: Seq<char>)
    ensures
        lines.len() == 0 ==> shown_lines(lines).len() == 0,
        lines.len() < 500 ==> shown_lines(lines.push(line)) == shown_lines(lines) + line + seq!['\n'],
        lines.len() > 500 ==> shown_lines(lines) == shown_lines(lines.take(500)) + "... "@ + decimal(
            (lines.len() - 500) as nat,
        ) + " more lines"@,
{
    assert(lines.push(line).drop_last() =~= lines);
    assert(with_breaks(lines.push(line)) =~= with_breaks(lines) + line + seq!['\n']);
}

/// What is shown of a file begins with its length. An empty file is said to be empty, a text is
/// shown by its lines, and other data by a dump of up to 256 bytes.
pub proof fn law_content(data: Seq<u8>)
    ensures
        ({
            let begin = "\n--- content ("@ + decimal(data.len()) + " bytes) ---\n\n"@;
            &&& begin.is_prefix_of(content_text(data))
            &&& content_text(data).skip(begin.len() as int) == if data.len() == 0 {
                "[empty]"@
            } else if valid_utf8(data) {
                shown_lines(lines_of(decode_utf8(data)))
            } else {
                "[binary data]\n\n"@ + hex_text(data, 256)
            }
        }),
{
    let begin = "\n--- content ("@ + decimal(data.len()) + " bytes) ---\n\n"@;
    let text = content_text(data);
    let rest = if data.len() == 0 {
        "[empty]"@
    } else if valid_utf8(data) {
        shown_lines(lines_of(decode_utf8(data)))
    } else {
        "[binary data]\n\n"@ + hex_text(data, 256)
    };
    assert(text =~= begin + rest);
    assert(text.subrange(0, begin.len() as int) =~= begin);
    assert(text.skip(begin.len() as int) =~= rest);
}

/// What is shown of an entry names its path and its kind; of a recorded one also its size and its
/// mode, in at least four octal digits.
pub proof fn law_head(path: Seq<char>, kind: EntryKind, size: u64, mode: u16)
    ensures
        ({
            let word = match kind {
                EntryKind::File => "file"@,
                EntryKind::Directory => "directory"@,
                EntryKind::Symlink => "symlink"@,
            };
            let begin = "Path: "@ + path + "\nType: "@ + word;
            let digits = padded(in_base(mode as nat, 8), 4);
            &&& head_text(path, kind, None) == begin + "\nSize: 0 B\n"@
            &&& head_text(path, kind, Some((size, mode))) == begin + "\nSize: "@ + size_text(size)
                + "\nMode: "@ + digits + "\n"@
            &&& digits.len() >= 4
            &&& read_in(digits, 8) == mode
        }),
{
    let word = match kind {
        EntryKind::File => "file"@,
        EntryKind::Directory => "directory"@,
        EntryKind::Symlink => "symlink"@,
    };
    let begin = "Path: "@ + path + "\nType: "@ + word;
    let digits = padded(in_base(mode as nat, 8), 4);
    law_written_number(mode as nat, 8);
    law_padding(in_base(mode as nat, 8), 4, 8);
    assert(head_text(path, kind, None) =~= begin + "\nSize: 0 B\n"@);
    assert(head_text(path, kind, Some((size, mode))) =~= begin + "\nSize: "@ + size_text(size)
        + "\nMode: "@ + digits + "\n"@);
}

/// A rounded quotient is the nearest number to the quotient, and the even one of two that are
/// equally near.
pub proof fn law_rounding(a: nat, b: nat)
    requires
        b > 0,
    ensures
        ({
            let r = rounded(a, b);
            &&& 2 * (r * b - a) <= b
            &&& 2 * (a - r * b) <= b
            &&& 2 * (r * b - a) == b || 2 * (a - r * b) == b ==> r % 2 == 0
        }),
{
    let q = a / b;
    let rest = a % b;
    lemma_fundamental_div_mod(a as int, b as int);
    assert(0 <= rest < b) by (nonlinear_arith)
        requires
            b > 0,
            rest == a % b,
    ;
    assert(b * q == q * b) by (nonlinear_arith);
    assert((q + 1) * b == q * b + b) by (nonlinear_arith);
}

/// Two, so many times with itself.
pub open spec fn doubled(k: nat) -> nat
    decreases k,
{
    if k == 0 {
        1
    } else {
        2 * doubled((k - 1) as nat)
    }
}

/// The numbers that a rounded size can be are those of at most 53 binary digits, with zeros behind
/// them.
pub proof fn law_highest_digits(n: nat)
    ensures
        n < 0x20_0000_0000_0000 ==> excess(n) == 1 && to_53_bits(n) == n,
        n >= 0x20_0000_0000_0000 ==> excess(n) * 0x10_0000_0000_0000 <= n,
        n < excess(n) * 0x20_0000_0000_0000,
        exists|k: nat| excess(n) == #[trigger] doubled(k),
        2 * (to_53_bits(n) - n) <= excess(n),
        2 * (n - to_53_bits(n)) <= excess(n),
        2 * (to_53_bits(n) - n) == excess(n) || 2 * (n - to_53_bits(n)) == excess(n) ==> (
        to_53_bits(n) / excess(n)) % 2 == 0,
{
    lemma_excess_range(n);
    let e = excess(n);
    law_rounding(n, e);
    let r = rounded(n, e);
    assert((r * e) / e == r) by {
        vstd::arithmetic::div_mod::lemma_div_multiples_vanish(r as int, e as int);
        assert(r * e == e * r) by (nonlinear_arith);
    }
    if n < 0x20_0000_0000_0000 {
        assert(e == 1);
        assert(r * 1 == r) by (nonlinear_arith);
    }
}

proof fn lemma_excess_range(n: nat)
    ensures
        excess(n) >= 1,
        n < 0x20_0000_0000_0000 ==> excess(n) == 1,
        n >= 0x20_0000_0000_0000 ==> excess(n) * 0x10_0000_0000_0000 <= n,
        n < excess(n) * 0x20_0000_0000_0000,
        exists|k: nat| excess(n) == #[trigger] doubled(k),
    decreases n,
{
    if n < 0x20_0000_0000_0000 {
        assert(doubled(0) == 1);
    } else {
        lemma_excess_range(n / 2);
        let k = choose|k: nat| excess(n / 2) == #[trigger] doubled(k);
        assert(doubled(k + 1) == 2 * doubled(k));
    }
}

/// `text` is `n` in the given unit, with the nearest tenth and the unit's name.
pub open spec fn is_shown_in(text: Seq<char>, n: nat, unit: nat, name: Seq<char>) -> bool {
    exists|tenths: nat|
        {
            &&& text == #[trigger] decimal(tenths / 10) + seq!['.'] + decimal(tenths % 10) + name
            &&& 2 * (tenths * unit - 10 * n) <= unit
            &&& 2 * (10 * n - tenths * unit) <= unit
            &&& 2 * (tenths * unit - 10 * n) == unit || 2 * (10 * n - tenths * unit) == unit
                ==> tenths % 2 == 0
        }
}

/// A size is shown in bytes below 1024 of them, and else in the largest unit of which there is at
/// least one, with the nearest tenth. Sizes of more than 53 binary digits are shown as the nearest
/// size that has no more.
pub proof fn law_size(size: u64)
    ensures
        size < 1024 ==> size_text(size) == decimal(size as nat) + " B"@,
        1024 <= size < 1024 * 1024 ==> is_shown_in(size_text(size), size as nat, 1024, " KB"@),
        1024 * 1024 <= size < 1024 * 1024 * 1024 ==> is_shown_in(
            size_text(size),
            size as nat,
            1024 * 1024,
            " MB"@,
        ),
        1024 * 1024 * 1024 <= size < 1024 * 1024 * 1024 * 1024 ==> is_shown_in(
            size_text(size),
            size as nat,
            1024 * 1024 * 1024,
            " GB"@,
        ),
        1024 * 1024 * 1024 * 1024 <= size ==> is_shown_in(
            size_text(size),
            to_53_bits(size as nat),
            1024 * 1024 * 1024 * 1024,
            " TB"@,
        ),
{
    law_highest_digits(size as nat);
    let n = to_53_bits(size as nat);
    if size >= 0x20_0000_0000_0000 {
        let e = excess(size as nat);
        assert(2 * n >= 2 * size - e);
        assert(e <= size);
    }
    let unit = unit_size(n);
    if unit > 1 {
        let tenths = rounded(10 * n, unit);
        law_rounding(10 * n, unit);
        let last = tenths % 10;
        assert(decimal(last) =~= seq![digit(last)]);
        let text = decimal(tenths / 10) + seq!['.'] + decimal(last) + unit_name(unit);
        assert(size_text(size) =~= text);
        assert(is_shown_in(size_text(size), n, unit, unit_name(unit)));
    }
}

/// A text that is filled up keeps what it holds, and only spaces follow.
pub proof fn law_filling(text: Seq<char>, width: nat)
    ensures
        filled(text, width).len() == if text.len() < width {
            width
        } else {
            text.len()
        },
        filled(text, width).take(text.len() as int) == text,
        forall|i: int|
            text.len() <= i < filled(text, width).len() ==> #[trigger] filled(text, width)[i] == ' ',
{
    assert(filled(text, width).take(text.len() as int) =~= text);
}

/// The dashboard shows the path of an archive in a column of 43 characters with a space on either
/// side, and beside it the word for its use in a column of 7 between brackets. A closed archive
/// whose file is not there is missing.
pub proof fn law_dashboard_line(entry: StorageEntryView, exists: bool)
    ensures
        path_text(entry)[0] == ' ',
        path_text(entry).last() == ' ',
        path_text(entry).subrange(1, entry.config.path.len() + 1int) == entry.config.path,
        entry.config.path.len() <= 43 ==> path_text(entry).len() == 45,
        forall|i: int|
            entry.config.path.len() < i < path_text(entry).len() ==> #[trigger] path_text(entry)[i]
                == ' ',
        ({
            let word = match entry.status {
                StorageStatus::Mounted => "mounted"@,
                StorageStatus::Open => "open"@,
                StorageStatus::Closed => if exists {
                    "closed"@
                } else {
                    "missing"@
                },
            };
            let text = use_text(entry, exists);
            &&& text[0] == '['
            &&& text.subrange(1, word.len() + 1int) == word
            &&& forall|i: int| word.len() < i < 8 ==> #[trigger] text[i] == ' '
            &&& text[8] == ']'
            &&& text.skip(9) == if entry.config.auto_mount {
                " [auto]"@
            } else {
                Seq::<char>::empty()
            }
        }),
{
    reveal_strlit(" ");
    reveal_strlit("[");
    reveal_strlit("]");
    reveal_strlit(" [auto]");
    reveal_strlit("mounted");
    reveal_strlit("open");
    reveal_strlit("closed");
    reveal_strlit("missing");
    let path = entry.config.path;
    law_filling(path, 43);
    assert(path_text(entry).subrange(1, path.len() + 1int) =~= filled(path, 43).take(
        path.len() as int,
    ));
    let word = status_text(entry.status, exists);
    law_filling(word, 7);
    let text = use_text(entry, exists);
    assert(text.subrange(1, word.len() + 1int) =~= filled(word, 7).take(word.len() as int));
    assert forall|i: int| word.len() < i < 8 implies #[trigger] text[i] == ' ' by {
        assert(text[i] == filled(word, 7)[i - 1]);
    }
    assert forall|i: int| path.len() < i < path_text(entry).len() implies #[trigger] path_text(
        entry,
    )[i] == ' ' by {
        if i < path_text(entry).len() - 1 {
            assert(path_text(entry)[i] == filled(path, 43)[i - 1]);
        }
    }
    assert(text.skip(9) =~= if entry.config.auto_mount {
        " [auto]"@
    } else {
        Seq::<char>::empty()
    });
}

/// A line of the settings shows by a mark whether the archive is mounted automatically, then its
/// path in a column of 40 characters and its mount point, or that it has none.
pub proof fn law_settings_line(config: StorageConfigView)
    ensures
        ({
            let text = settings_text(config);
            let path = config.path;
            let width = if path.len() < 40 {
                40
            } else {
                path.len() as int
            };
            &&& text[0] == ' ' && text[1] == '[' && text[3] == ']' && text[4] == ' ' && text[5]
                == ' '
            &&& text[2] == if config.auto_mount {
                'x'
            } else {
                ' '
            }
            &&& text.subrange(6, path.len() + 6int) == path
            &&& forall|i: int| 6 + path.len() <= i < 6 + width ==> #[trigger] text[i] == ' '
            &&& text.skip(6 + width) == "  mount: "@ + if config.mount_point.len() > 0 {
                config.mount_point
            } else {
                "(no mount point)"@
            }
        }),
{
    reveal_strlit(" ");
    reveal_strlit("  ");
    reveal_strlit("[x]");
    reveal_strlit("[ ]");
    let text = settings_text(config);
    let path = config.path;
    let column = filled(path, 40);
    law_filling(path, 40);
    assert(text.subrange(6, path.len() + 6int) =~= column.take(path.len() as int));
    assert forall|i: int| 6 + path.len() <= i < 6 + column.len() implies #[trigger] text[i]
        == ' ' by {
        assert(text[i] == column[i - 6]);
    }
    assert(text.skip(column.len() + 6int) =~= "  mount: "@ + if config.mount_point.len() > 0 {
        config.mount_point
    } else {
        "(no mount point)"@
    });
}

proof fn lemma_indented(levels: nat)
    ensures
        indented(levels).len() == 2 * levels,
        forall|i: int| 0 <= i < indented(levels).len() ==> #[trigger] indented(levels)[i] == ' ',
    decreases levels,
{
    reveal_strlit("  ");
    if levels > 0 {
        lemma_indented((levels - 1) as nat);
    }
}

/// The line for a file is its name, two spaces in for each level above it up to ten, with a mark
/// for its kind: directories and links have a letter, and a slash ends the name of a directory.
pub proof fn law_file_line(line: TreeNodeView)
    ensures
        ({
            let margin = if line.depth > 10 {
                20
            } else {
                2 * line.depth as int
            };
            let text = file_text(line);
            &&& forall|i: int| 0 <= i < margin ==> #[trigger] text[i] == ' '
            &&& text[margin] == if line.kind == EntryKind::Directory {
                'D'
            } else if line.kind == EntryKind::Symlink {
                'L'
            } else {
                ' '
            }
            &&& text[margin + 1] == ' '
            &&& text.skip(margin + 2) == if line.kind == EntryKind::Directory {
                line.name + seq!['/']
            } else {
                line.name
            }
        }),
{
    reveal_strlit("D ");
    reveal_strlit("L ");
    reveal_strlit("  ");
    reveal_strlit("/");
    let levels: nat = if line.depth < 10 {
        line.depth
    } else {
        10
    };
    lemma_indented(levels);
    let text = file_text(line);
    assert(text.take(2 * levels as int) =~= indented(levels));
    assert forall|i: int| 0 <= i < 2 * levels implies #[trigger] text[i] == ' ' by {
        assert(text[i] == indented(levels)[i]);
    }
    assert(text.skip(2 * levels as int + 2) =~= if line.kind == EntryKind::Directory {
        line.name + seq!['/']
    } else {
        line.name
    });
}

/// Above the list stand the path of the archive, how many files are listed, and the filter where
/// there is one.
pub proof fn law_title(path: Seq<char>, count: nat, filter: Seq<char>)
    ensures
        ({
            let begin = " "@ + path + "  \u{2014}  "@ + decimal(count) + " items  "@;
            &&& title_text(path, count, Seq::<char>::empty()) == begin
            &&& filter.len() > 0 ==> title_text(path, count, filter) == begin + "filter: "@ + filter
        }),
{
    let begin = " "@ + path + "  \u{2014}  "@ + decimal(count) + " items  "@;
    assert(title_text(path, count, Seq::<char>::empty()) =~= begin);
    if filter.len() > 0 {
        assert(title_text(path, count, filter) =~= begin + "filter: "@ + filter);
    }
}

/// The line for a path shows what follows its last separator, one level below the line for what
/// comes before it. What is not recorded is a directory.
pub proof fn law_line(entries: Map<Seq<char>, Meta>, parent: Seq<char>, name: Seq<char>)
    requires
        unseparated(name),
    ensures
        ({
            let inner = line_for(entries, parent + seq!['/'] + name);
            let top = line_for(entries, name);
            &&& inner.name == name && top.name == name
            &&& inner.path == parent + seq!['/'] + name && top.path == name
            &&& top.depth == 0
            &&& inner.depth == line_for(entries, parent).depth + 1
            &&& entries.contains_key(name) ==> top.kind == entries[name].kind
            &&& !entries.contains_key(name) ==> top.kind == EntryKind::Directory
        }),
{
    lemma_split_single(name);
    lemma_split_pieces(parent);
    lemma_split_around(parent, '/', name);
    assert(parent.push('/') + name =~= parent + seq!['/'] + name);
    let parts = split(parent) + split(name);
    assert(parts.last() == name);
}

/// A text is found just where it stands between two others.
pub proof fn law_search(before: Seq<char>, needle: Seq<char>, behind: Seq<char>, text: Seq<char>)
    ensures
        contains_text(before + needle + behind, needle),
        contains_text(text, needle) ==> exists|i: int|
            0 <= i <= text.len() - needle.len() && text == #[trigger] text.take(i) + needle
                + text.skip(i + needle.len()),
{
    let all = before + needle + behind;
    let at = before.len() as int;
    assert(all.subrange(at, at + needle.len()) =~= needle);
    assert(occurs_at(all, needle, at));
    if contains_text(text, needle) {
        let i = choose|i: int| #[trigger] occurs_at(text, needle, i);
        assert(text =~= text.take(i) + text.subrange(i, i + needle.len()) + text.skip(
            i + needle.len(),
        ));
        assert(text == text.take(i) + needle + text.skip(i + needle.len()));
    }
}

/// A search finds in more texts what it found in fewer, and the last where it holds what is
/// searched.
pub proof fn law_matches(texts: Seq<Seq<char>>, text: Seq<char>, needle: Seq<char>)
    ensures
        matching(Seq::<Seq<char>>::empty(), needle).len() == 0,
        contains_text(text, needle) ==> matching(texts.push(text), needle) == matching(
            texts,
            needle,
        ).push(texts.len() as usize),
        !contains_text(text, needle) ==> matching(texts.push(text), needle) == matching(
            texts,
            needle,
        ),
{
    assert(texts.push(text).drop_last() =~= texts);
}

/// Of two texts that differ, the one with the smaller byte in the first place where they do comes
/// first; a text comes before all that it begins.
pub proof fn law_order(begin: Seq<u8>, x: u8, y: u8, a: Seq<u8>, b: Seq<u8>)
    ensures
        x < y ==> bytes_precede(begin + seq![x] + a, begin + seq![y] + b),
        x > y ==> !bytes_precede(begin + seq![x] + a, begin + seq![y] + b),
        bytes_precede(begin, begin + seq![x] + a),
        !bytes_precede(begin + seq![x] + a, begin),
{
    let one = begin + seq![x] + a;
    let other = begin + seq![y] + b;
    let at = begin.len() as int;
    assert(one[at] == x && other[at] == y);
    assert forall|k: int| 0 <= k < at implies #[trigger] one[k] == other[k] && begin[k]
        == one[k] by {}
    if x < y {
        assert(precedes_at(one, other, at));
    }
    if x > y {
        assert forall|i: int| !#[trigger] precedes_at(one, other, i) by {
            if precedes_at(one, other, i) && i > at {
                assert(one[at] == other[at]);
            }
        }
    }
    assert(precedes_at(begin, one, at));
}

/// Texts are ordered as their bytes in UTF-8 are.
pub proof fn law_text_order(a: Seq<char>, b: Seq<char>)
    ensures
        precedes(a, b) <==> bytes_precede(encode_utf8(a), encode_utf8(b)),
{
}

/// A timestamp counts whole seconds down and nanoseconds up from there. What lies further from the
/// epoch than it can say is cut to the last second.
pub proof fn law_timestamp(seconds: int, nanoseconds: int)
    requires
        0 <= nanoseconds < 1_000_000_000,
    ensures
        ({
            let t = timestamp_at(seconds * 1_000_000_000 + nanoseconds);
            &&& t.nanoseconds == nanoseconds
            &&& -0x7fff_ffff_ffff_ffff <= seconds <= 0x7fff_ffff_ffff_ffff ==> t.seconds == seconds
            &&& seconds > 0x7fff_ffff_ffff_ffff ==> t.seconds == 0x7fff_ffff_ffff_ffff
            &&& seconds < -0x7fff_ffff_ffff_ffff ==> t.seconds == if nanoseconds == 0 {
                -0x7fff_ffff_ffff_ffff
            } else {
                -0x8000_0000_0000_0000
            }
        }),
        forall|t: Timestamp| #[trigger]
            t.is_valid() && t.seconds == seconds && t.nanoseconds == nanoseconds ==> t.nanos()
                == seconds * 1_000_000_000 + nanoseconds,
{
}

/// An index is due once there has been no change for as long as was asked, and not before.
pub proof fn law_idle(watch: IdleCheckpoint, now: u128, wait: u128)
    ensures
        watch.idle_for(now) >= wait <==> wait == 0 || now >= watch.last() + wait,
{
}

/// Mounting by this process comes first. Where that fails, a directory is made and another process
/// is started, unless the archive is to be a drive. Each way of failing has its own message.
pub proof fn law_mount_steps(as_drive: bool, failure: Failure, outcome: bool)
    ensures
        mount_following(MountStep::Direct, true, as_drive) is Mounted,
        mount_following(MountStep::Direct, false, true) == MountStep::Failed(Failure::OpenForMount),
        mount_following(MountStep::Direct, false, false) is MakeMountPoint,
        mount_following(MountStep::MakeMountPoint, true, as_drive) is StartHelper,
        mount_following(MountStep::MakeMountPoint, false, as_drive) == MountStep::Failed(
            Failure::MountPoint,
        ),
        mount_following(MountStep::StartHelper, true, as_drive) is HelperStarted,
        mount_following(MountStep::StartHelper, false, as_drive) == MountStep::Failed(
            Failure::Mount,
        ),
        mount_following(MountStep::Failed(failure), outcome, as_drive) == MountStep::Failed(
            failure,
        ),
        mount_following(MountStep::Mounted, outcome, as_drive) is Mounted,
        mount_following(MountStep::HelperStarted, outcome, as_drive) is HelperStarted,
{
}

/// Four attempts are made to release an archive: with the newer program and with the older one,
/// and then with both again without waiting. The first that succeeds is the last. A process that
/// then still runs after fifty looks is made to end.
pub proof fn law_unmount_steps(attempt: u8, looks: u8, has_process: bool, outcome: bool)
    ensures
        attempt < 4 ==> release_words(attempt) == (
            if attempt == 0 || attempt == 2 {
                "fusermount3"@
            } else {
                "fusermount"@
            },
            if attempt == 0 || attempt == 1 {
                "-u"@
            } else {
                "-uz"@
            },
        ),
        attempt < 3 ==> following(UnmountStep::Release(attempt), false, has_process)
            == UnmountStep::Release((attempt + 1) as u8),
        attempt >= 3 ==> following(UnmountStep::Release(attempt), false, has_process) is Failed,
        following(UnmountStep::Release(attempt), true, true) == UnmountStep::Probe(0),
        following(UnmountStep::Release(attempt), true, false) is Done,
        after_release(true) == UnmountStep::Probe(0),
        after_release(false) is Done,
        following(UnmountStep::Probe(looks), false, has_process) is Done,
        looks < 49 ==> following(UnmountStep::Probe(looks), true, has_process)
            == UnmountStep::Probe((looks + 1) as u8),
        looks >= 49 ==> following(UnmountStep::Probe(looks), true, has_process) is Terminate,
        following(UnmountStep::Terminate, outcome, has_process) is Done,
        following(UnmountStep::Done, outcome, has_process) is Done,
        following(UnmountStep::Failed, outcome, has_process) is Failed,
{
}

} // verus!
