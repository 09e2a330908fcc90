//! Text building blocks for terminal output: ANSI colouring, visible width,
//! decimal numbers, padding and line splitting.

use vstd::prelude::*;

verus! {

// ── ANSI colour helpers ──────────────────────────────────────────────────────

/// `s` wrapped in the ANSI escape sequence for `code` and the reset sequence.
pub open spec fn ansi_of(code: Seq<char>, s: Seq<char>) -> Seq<char> {
    "\x1b["@ + code + "m"@ + s + "\x1b[0m"@
}

/// Wrap `s` with the ANSI escape codes for `code`.
pub fn ansi(code: &str, s: &str) -> (r: String)
    ensures
        r@ == ansi_of(code@, s@),
{
    let mut out = String::from_str("\x1b[");
    out.append(code);
    out.append("m");
    out.append(s);
    out.append("\x1b[0m");
    out
}

pub fn cyan(s: &str) -> (r: String)
    ensures
        r@ == ansi_of("36"@, s@),
{
    ansi("36", s)
}

pub fn yellow(s: &str) -> (r: String)
    ensures
        r@ == ansi_of("33"@, s@),
{
    ansi("33", s)
}

pub fn magenta(s: &str) -> (r: String)
    ensures
        r@ == ansi_of("35"@, s@),
{
    ansi("35", s)
}

pub fn bold_reverse(s: &str) -> (r: String)
    ensures
        r@ == ansi_of("1;7"@, s@),
{
    ansi("1;7", s)
}

// ── Visible width ────────────────────────────────────────────────────────────

/// Scan `s` left to right, counting printable characters and tracking
/// whether an escape sequence (`\x1b` up to the next `m`) is open.
pub open spec fn ansi_scan(s: Seq<char>) -> (int, bool)
    decreases s.len(),
{
    if s.len() == 0 {
        (0, false)
    } else {
        let prev = ansi_scan(s.drop_last());
        let ch = s.last();
        if ch == '\x1b' {
            (prev.0, true)
        } else if prev.1 {
            (prev.0, ch != 'm')
        } else {
            (prev.0 + 1, false)
        }
    }
}

/// Number of characters of `s` that are displayed, escape sequences excluded.
pub open spec fn visible_len_of(s: Seq<char>) -> int {
    ansi_scan(s).0
}

/// Scan `s` left to right, keeping the displayed characters and tracking
/// whether an escape sequence (`\x1b` up to the next `m`) is open.
pub open spec fn strip_scan(s: Seq<char>) -> (Seq<char>, bool)
    decreases s.len(),
{
    if s.len() == 0 {
        (Seq::empty(), false)
    } else {
        let prev = strip_scan(s.drop_last());
        let ch = s.last();
        if ch == '\x1b' {
            (prev.0, true)
        } else if prev.1 {
            (prev.0, ch != 'm')
        } else {
            (prev.0.push(ch), false)
        }
    }
}

/// The characters of `s` that are displayed: `s` with its escape sequences removed.
pub open spec fn visible_text_of(s: Seq<char>) -> Seq<char> {
    strip_scan(s).0
}

pub proof fn lemma_ansi_scan_bounds(s: Seq<char>)
    ensures
        0 <= ansi_scan(s).0 <= s.len(),
    decreases s.len(),
{
    if s.len() > 0 {
        lemma_ansi_scan_bounds(s.drop_last());
    }
}

/// Count printable characters in a string, skipping ANSI escape sequences
/// (`\x1b[...m`) so colour codes don't distort visible-width calculations.
pub fn visible_len(s: &str) -> (r: usize)
    ensures
        r == visible_len_of(s@),
{
    let n = s.unicode_len();
    let mut count: usize = 0;
    let mut in_escape = false;
    let mut i: usize = 0;
    while i < n
        invariant
            n == s@.len(),
            i <= n,
            (count as int, in_escape) == ansi_scan(s@.take(i as int)),
            count <= i,
        decreases n - i,
    {
        let ch = s.get_char(i);
        proof {
            assert(s@.take(i + 1).drop_last() =~= s@.take(i as int));
        }
        if ch == '\x1b' {
            in_escape = true;
        } else if in_escape {
            if ch == 'm' {
                in_escape = false;
            }
        } else {
            count += 1;
        }
        i += 1;
    }
    proof {
        assert(s@.take(n as int) =~= s@);
    }
    count
}

// ── Decimal numbers ──────────────────────────────────────────────────────────

pub open spec fn digit_char(d: int) -> char {
    (48 + d) as char
}

/// Decimal representation of a natural number, most significant digit first.
pub open spec fn decimal_of(n: nat) -> Seq<char>
    decreases n,
{
    if n < 10 {
        seq![digit_char(n as int)]
    } else {
        decimal_of(n / 10) + seq![digit_char((n % 10) as int)]
    }
}

/// Decimal representation of an integer, with a leading `-` when negative.
pub open spec fn signed_decimal_of(n: int) -> Seq<char> {
    if n < 0 { "-"@ + decimal_of((-n) as nat) } else { decimal_of(n as nat) }
}

/// Numbers below 10 have one digit, below 100 at most two, and every number at least one.
pub proof fn lemma_decimal_len(n: nat)
    ensures
        decimal_of(n).len() >= 1,
        decimal_of(n).len() == 1 <==> n < 10,
        n < 100 ==> decimal_of(n).len() <= 2,
        n >= 10 && n < 100 ==> decimal_of(n).len() == 2,
    decreases n,
{
    if n >= 10 {
        lemma_decimal_len(n / 10);
    }
}

fn digit_str(d: u32) -> (r: &'static str)
    requires
        d < 10,
    ensures
        r@ == seq![digit_char(d as int)],
{
    let r = match d {
        0 => "0",
        1 => "1",
        2 => "2",
        3 => "3",
        4 => "4",
        5 => "5",
        6 => "6",
        7 => "7",
        8 => "8",
        _ => "9",
    };
    proof {
        reveal_strlit("0");
        reveal_strlit("1");
        reveal_strlit("2");
        reveal_strlit("3");
        reveal_strlit("4");
        reveal_strlit("5");
        reveal_strlit("6");
        reveal_strlit("7");
        reveal_strlit("8");
        reveal_strlit("9");
        assert(r@ =~= seq![digit_char(d as int)]);
    }
    r
}

/// Append the decimal digits of `n` to `out`.
pub fn push_decimal(out: &mut String, n: u32)
    ensures
        final(out)@ == old(out)@ + decimal_of(n as nat),
    decreases n,
{
    if n >= 10 {
        push_decimal(out, n / 10);
    }
    out.append(digit_str(n % 10));
    proof {
        assert(final(out)@ =~= old(out)@ + decimal_of(n as nat));
    }
}

/// The decimal representation of `n`, as `n.to_string()` gives it.
pub fn u32_to_decimal(n: u32) -> (r: String)
    ensures
        r@ == decimal_of(n as nat),
{
    let mut out = String::new();
    push_decimal(&mut out, n);
    proof { assert(out@ =~= decimal_of(n as nat)); }
    out
}

/// The decimal representation of `n`, as `n.to_string()` gives it.
pub fn i32_to_decimal(n: i32) -> (r: String)
    ensures
        r@ == signed_decimal_of(n as int),
{
    let mut out = String::new();
    if n < 0 {
        out.append("-");
        let magnitude: u32 = if n == i32::MIN { 2147483648u32 } else { (-n) as u32 };
        push_decimal(&mut out, magnitude);
    } else {
        push_decimal(&mut out, n as u32);
    }
    proof { assert(out@ =~= signed_decimal_of(n as int)); }
    out
}

/// Text without escape characters.
pub open spec fn no_escape(s: Seq<char>) -> bool {
    forall|i: int| 0 <= i < s.len() ==> s[i] != '\x1b'
}

/// Text that can sit inside an escape sequence without closing it.
pub open spec fn escape_body(s: Seq<char>) -> bool {
    forall|i: int| 0 <= i < s.len() ==> s[i] != '\x1b' && s[i] != 'm'
}

/// Scanning `a + b` from a state outside escapes: the counts add up and the
/// state at the end is that of `b`.
pub proof fn lemma_scan_concat(a: Seq<char>, b: Seq<char>)
    requires
        !ansi_scan(a).1,
    ensures
        ansi_scan(a + b) == (ansi_scan(a).0 + ansi_scan(b).0, ansi_scan(b).1),
    decreases b.len(),
{
    if b.len() == 0 {
        assert(a + b =~= a);
    } else {
        lemma_scan_concat(a, b.drop_last());
        assert((a + b).drop_last() =~= a + b.drop_last());
        assert((a + b).last() == b.last());
    }
}

/// Text without escape characters is all visible.
pub proof fn lemma_scan_plain(s: Seq<char>)
    requires
        no_escape(s),
    ensures
        ansi_scan(s) == (s.len() as int, false),
    decreases s.len(),
{
    if s.len() > 0 {
        lemma_scan_plain(s.drop_last());
    }
}

/// Inside an open escape sequence, text without `m` or escape characters
/// leaves the sequence open and adds nothing visible.
proof fn lemma_scan_in_escape(p: Seq<char>, q: Seq<char>)
    requires
        ansi_scan(p).1,
        escape_body(q),
    ensures
        ansi_scan(p + q) == ansi_scan(p),
    decreases q.len(),
{
    if q.len() > 0 {
        lemma_scan_in_escape(p, q.drop_last());
        assert((p + q).drop_last() =~= p + q.drop_last());
        assert((p + q).last() == q.last());
    }
}

/// An escape sequence `\x1b[<code>m` shows nothing and closes itself.
pub proof fn lemma_scan_escape_sequence(code: Seq<char>)
    requires
        escape_body(code),
    ensures
        ansi_scan("\x1b["@ + code + "m"@) == (0int, false),
{
    reveal_strlit("\x1b[");
    reveal_strlit("m");
    let open = "\x1b["@;
    assert(open =~= seq!['\x1b', '[']);
    let esc = seq!['\x1b'];
    assert(esc.drop_last() =~= Seq::<char>::empty());
    assert(ansi_scan(Seq::<char>::empty()) == (0int, false));
    assert(esc.last() == '\x1b');
    assert(ansi_scan(esc) == (0int, true));
    assert(open.drop_last() =~= esc);
    assert(ansi_scan(open) == (0int, true));
    lemma_scan_in_escape(open, code);
    let t = open + code + "m"@;
    assert(t.drop_last() =~= open + code);
}

/// Colouring text with ANSI codes leaves its visible length unchanged.
pub proof fn lemma_scan_ansi(code: Seq<char>, s: Seq<char>)
    requires
        escape_body(code),
        no_escape(s),
    ensures
        ansi_scan(ansi_of(code, s)) == (s.len() as int, false),
{
    reveal_strlit("0");
    lemma_scan_escape_sequence(code);
    lemma_scan_escape_sequence("0"@);
    lemma_scan_plain(s);
    let head = "\x1b["@ + code + "m"@;
    lemma_scan_concat(head, s);
    lemma_scan_concat(head + s, "\x1b[0m"@);
    assert("\x1b["@ + "0"@ + "m"@ =~= "\x1b[0m"@) by {
        reveal_strlit("\x1b[");
        reveal_strlit("m");
        reveal_strlit("\x1b[0m");
    }
    assert(ansi_of(code, s) =~= head + s + "\x1b[0m"@);
}

/// Decimal digits contain no escape characters, no `m` and no line breaks.
pub proof fn lemma_decimal_plain(n: nat)
    ensures
        escape_body(decimal_of(n)),
        no_line_break(decimal_of(n)),
    decreases n,
{
    if n >= 10 {
        lemma_decimal_plain(n / 10);
    }
}

/// Colouring keeps text on one line.
pub proof fn lemma_ansi_no_line_break(code: Seq<char>, s: Seq<char>)
    requires
        no_line_break(code),
        no_line_break(s),
    ensures
        no_line_break(ansi_of(code, s)),
{
    reveal_strlit("\x1b[");
    reveal_strlit("m");
    reveal_strlit("\x1b[0m");
    lemma_no_line_break_concat("\x1b["@, code);
    lemma_no_line_break_concat("\x1b["@ + code, "m"@);
    lemma_no_line_break_concat("\x1b["@ + code + "m"@, s);
    lemma_no_line_break_concat("\x1b["@ + code + "m"@ + s, "\x1b[0m"@);
}

/// When every line has the same visible width, that is the widest.
pub proof fn lemma_max_visible_len_uniform(ls: Seq<Seq<char>>, w: int)
    requires
        ls.len() >= 1,
        w >= 0,
        forall|k: int| 0 <= k < ls.len() ==> visible_len_of(#[trigger] ls[k]) == w,
    ensures
        max_visible_len(ls) == w,
    decreases ls.len(),
{
    assert(visible_len_of(ls[ls.len() - 1]) == w);
    if ls.len() > 1 {
        let front = ls.drop_last();
        assert forall|k: int| 0 <= k < front.len() implies visible_len_of(#[trigger] front[k]) == w by {
            assert(front[k] == ls[k]);
        }
        lemma_max_visible_len_uniform(front, w);
        assert(max_visible_len(ls.drop_last()) == w);
    } else {
        assert(ls.drop_last().len() == 0);
        assert(max_visible_len(ls.drop_last()) == 0);
    }
    assert(visible_len_of(ls.last()) == w);
}

// ── Padding ──────────────────────────────────────────────────────────────────

pub open spec fn spaces(k: int) -> Seq<char> {
    Seq::new(if k < 0 { 0 } else { k as nat }, |i: int| ' ')
}

/// Append `k` spaces to `out`.
pub fn push_spaces(out: &mut String, k: usize)
    ensures
        final(out)@ == old(out)@ + spaces(k as int),
{
    let mut i: usize = 0;
    while i < k
        invariant
            i <= k,
            out@ == old(out)@ + spaces(i as int),
        decreases k - i,
    {
        out.append(" ");
        proof {
            reveal_strlit(" ");
            assert(out@ =~= old(out)@ + spaces(i + 1));
        }
        i += 1;
    }
}

/// `s` right-aligned in a field of width 2, as `format!("{:>2}", ..)` does.
pub open spec fn right_align2(s: Seq<char>) -> Seq<char> {
    if s.len() < 2 { spaces(2 - s.len()) + s } else { s }
}

// ── Lines ────────────────────────────────────────────────────────────────────

/// The pieces of `s` between `\n` characters, as `str::split('\n')` gives them.
pub open spec fn split_newlines(s: Seq<char>) -> Seq<Seq<char>>
    decreases s.len(),
{
    if s.len() == 0 {
        seq![Seq::empty()]
    } else {
        let p = split_newlines(s.drop_last());
        if s.last() == '\n' {
            p.push(Seq::empty())
        } else {
            p.update(p.len() - 1, p.last().push(s.last()))
        }
    }
}

/// `line` without one trailing carriage return.
pub open spec fn strip_cr(line: Seq<char>) -> Seq<char> {
    if line.len() > 0 && line.last() == '\r' { line.drop_last() } else { line }
}

/// The lines of `s`, as `str::lines` gives them: split at `\n`, a `\r` right
/// before a `\n` dropped, and no empty line after a final `\n`.
pub open spec fn lines_of(s: Seq<char>) -> Seq<Seq<char>> {
    let p = split_newlines(s);
    let k = p.len() - 1;
    Seq::new(
        (if p[k].len() == 0 { k } else { k + 1 }) as nat,
        |j: int| if j < k { strip_cr(p[j]) } else { p[j] },
    )
}

pub proof fn lemma_split_newlines_nonempty(s: Seq<char>)
    ensures
        split_newlines(s).len() >= 1,
    decreases s.len(),
{
    if s.len() > 0 {
        lemma_split_newlines_nonempty(s.drop_last());
    }
}

/// Split `s` into its lines, as `str::lines` does.
pub fn split_lines<'a>(s: &'a str) -> (r: Vec<&'a str>)
    ensures
        r@.len() == lines_of(s@).len(),
        forall|k: int| 0 <= k < r@.len() ==> (#[trigger] r@[k])@ == lines_of(s@)[k],
{
    let n = s.unicode_len();
    let mut lines: Vec<&'a str> = Vec::new();
    let mut start: usize = 0;
    let mut i: usize = 0;
    while i < n
        invariant
            n == s@.len(),
            start <= i <= n,
            split_newlines(s@.take(i as int)).len() == lines@.len() + 1,
            split_newlines(s@.take(i as int)).last() == s@.subrange(start as int, i as int),
            forall|k: int| 0 <= k < lines@.len() ==> (#[trigger] lines@[k])@
                == strip_cr(split_newlines(s@.take(i as int))[k]),
        decreases n - i,
    {
        let ch = s.get_char(i);
        let ghost before = split_newlines(s@.take(i as int));
        proof {
            lemma_split_newlines_nonempty(s@.take(i as int));
            assert(s@.take(i + 1).drop_last() =~= s@.take(i as int));
            assert(s@.take(i + 1).last() == ch);
        }
        if ch == '\n' {
            let mut end = i;
            if end > start && s.get_char(end - 1) == '\r' {
                end = end - 1;
            }
            let line = s.substring_char(start, end);
            proof {
                assert(line@ =~= strip_cr(s@.subrange(start as int, i as int)));
            }
            lines.push(line);
            start = i + 1;
            proof {
                let after = split_newlines(s@.take(i + 1));
                assert(after == before.push(Seq::empty()));
                assert forall|k: int| 0 <= k < lines@.len() implies (#[trigger] lines@[k])@
                    == strip_cr(after[k]) by {
                    assert(after[k] == before[k]);
                }
                assert(after.last() =~= s@.subrange(start as int, i + 1));
            }
        } else {
            proof {
                let after = split_newlines(s@.take(i + 1));
                assert(after == before.update(before.len() - 1, before.last().push(ch)));
                assert(after.last() =~= s@.subrange(start as int, i + 1));
                assert forall|k: int| 0 <= k < lines@.len() implies (#[trigger] lines@[k])@
                    == strip_cr(after[k]) by {
                    assert(after[k] == before[k]);
                }
            }
        }
        i += 1;
    }
    proof {
        assert(s@.take(n as int) =~= s@);
        lemma_split_newlines_nonempty(s@);
    }
    if start < n {
        let line = s.substring_char(start, n);
        lines.push(line);
    }
    proof {
        let p = split_newlines(s@);
        assert(lines@.len() == lines_of(s@).len());
        assert forall|k: int| 0 <= k < lines@.len() implies (#[trigger] lines@[k])@
            == lines_of(s@)[k] by {
        }
    }
    lines
}

/// Text without a `\n`.
pub open spec fn no_newline(s: Seq<char>) -> bool {
    forall|i: int| 0 <= i < s.len() ==> s[i] != '\n'
}

/// Text without line breaks: no `\n` and no `\r`.
pub open spec fn no_line_break(s: Seq<char>) -> bool {
    forall|i: int| 0 <= i < s.len() ==> s[i] != '\n' && s[i] != '\r'
}

pub proof fn lemma_no_line_break_concat(a: Seq<char>, b: Seq<char>)
    requires
        no_line_break(a),
        no_line_break(b),
    ensures
        no_line_break(a + b),
{
    assert forall|i: int| 0 <= i < (a + b).len() implies (a + b)[i] != '\n' && (a + b)[i] != '\r' by {
        if i < a.len() {
            assert((a + b)[i] == a[i]);
        } else {
            assert((a + b)[i] == b[i - a.len()]);
        }
    }
}

/// Appending text without `\n` extends the last piece.
proof fn lemma_split_extend(x: Seq<char>, y: Seq<char>)
    requires
        no_newline(y),
    ensures
        split_newlines(x + y) == split_newlines(x).update(
            split_newlines(x).len() - 1,
            split_newlines(x).last() + y,
        ),
    decreases y.len(),
{
    lemma_split_newlines_nonempty(x);
    if y.len() == 0 {
        assert(x + y =~= x);
        assert(split_newlines(x).last() + y =~= split_newlines(x).last());
        assert(split_newlines(x).update(split_newlines(x).len() - 1, split_newlines(x).last())
            =~= split_newlines(x));
    } else {
        let y0 = y.drop_last();
        assert(no_newline(y0));
        lemma_split_extend(x, y0);
        assert((x + y).drop_last() =~= x + y0);
        assert((x + y).last() == y.last());
        assert(split_newlines(x).last() + y0 + seq![y.last()] =~= split_newlines(x).last() + y);
        let p = split_newlines(x + y0);
        assert(p.last() == split_newlines(x).last() + y0);
        assert(p.last().push(y.last()) =~= split_newlines(x).last() + y);
        assert(p.update(p.len() - 1, p.last().push(y.last())) =~= split_newlines(x).update(
            split_newlines(x).len() - 1, split_newlines(x).last() + y));
    }
}

/// Joining lines with `\n` and splitting at `\n` gives the lines back.
pub proof fn lemma_split_join(ls: Seq<Seq<char>>)
    requires
        ls.len() >= 1,
        forall|k: int| 0 <= k < ls.len() ==> no_line_break(#[trigger] ls[k]),
    ensures
        split_newlines(join_lines_of(ls)) == ls,
    decreases ls.len(),
{
    if ls.len() == 1 {
        assert(no_line_break(ls[0]));
        lemma_split_extend(Seq::empty(), ls[0]);
        assert(Seq::<char>::empty() + ls[0] =~= ls[0]);
        assert(split_newlines(Seq::<char>::empty()) == seq![Seq::<char>::empty()]);
        assert(Seq::<char>::empty() + ls[0] =~= ls[0]);
        assert(seq![Seq::<char>::empty()].update(0, Seq::<char>::empty() + ls[0]) =~= ls);
    } else {
        let front = ls.drop_last();
        assert forall|k: int| 0 <= k < front.len() implies no_line_break(#[trigger] front[k]) by {
            assert(front[k] == ls[k]);
        }
        lemma_split_join(front);
        let j = join_lines_of(front) + "\n"@;
        reveal_strlit("\n");
        assert(j.drop_last() =~= join_lines_of(front));
        assert(j.last() == '\n');
        assert(split_newlines(j) == front.push(Seq::empty()));
        assert(no_line_break(ls.last()));
        lemma_split_extend(j, ls.last());
        assert(join_lines_of(ls) == j + ls.last());
        assert(Seq::<char>::empty() + ls.last() =~= ls.last());
        assert(front.push(Seq::empty()).update(front.len() as int, Seq::<char>::empty() + ls.last()) =~= ls);
    }
}

/// Splitting joined lines gives them back, when the last is not empty.
pub proof fn lemma_lines_of_join(ls: Seq<Seq<char>>)
    requires
        ls.len() >= 1,
        ls.last().len() > 0,
        forall|k: int| 0 <= k < ls.len() ==> no_line_break(#[trigger] ls[k]),
    ensures
        lines_of(join_lines_of(ls)) == ls,
{
    lemma_split_join(ls);
    let r = lines_of(join_lines_of(ls));
    assert forall|k: int| 0 <= k < ls.len() implies #[trigger] r[k] == ls[k] by {
        if k < ls.len() - 1 {
            assert(no_line_break(ls[k]));
            if ls[k].len() > 0 {
                assert(ls[k][ls[k].len() - 1] != '\r');
            }
        }
    }
    assert(r =~= ls);
}

/// Lines joined with `\n` between them, as `[String]::join("\n")` does.
pub open spec fn join_lines_of(ls: Seq<Seq<char>>) -> Seq<char>
    decreases ls.len(),
{
    if ls.len() == 0 {
        Seq::empty()
    } else if ls.len() == 1 {
        ls[0]
    } else {
        join_lines_of(ls.drop_last()) + "\n"@ + ls.last()
    }
}

/// Join lines with `\n` between them.
pub fn join_lines(lines: &Vec<String>) -> (r: String)
    ensures
        r@ == join_lines_of(lines@.map_values(|l: String| l@)),
{
    let ghost views = lines@.map_values(|l: String| l@);
    let mut out = String::new();
    let mut i: usize = 0;
    while i < lines.len()
        invariant
            i <= lines.len(),
            views == lines@.map_values(|l: String| l@),
            out@ == join_lines_of(views.take(i as int)),
        decreases lines.len() - i,
    {
        if i > 0 {
            out.append("\n");
        }
        out.append(lines[i].as_str());
        proof {
            assert(views.take(i + 1).drop_last() =~= views.take(i as int));
            if i == 0 {
                assert(out@ =~= join_lines_of(views.take(1)));
            }
        }
        i += 1;
    }
    proof { assert(views.take(i as int) =~= views); }
    out
}

// ── Side-by-side layout ──────────────────────────────────────────────────────

/// Visible width of the widest of `ls` (0 when there are none).
pub open spec fn max_visible_len(ls: Seq<Seq<char>>) -> int
    decreases ls.len(),
{
    if ls.len() == 0 {
        0
    } else {
        let w = max_visible_len(ls.drop_last());
        let v = visible_len_of(ls.last());
        if v > w { v } else { w }
    }
}

/// Number of lines of the tallest block.
pub open spec fn max_lines(blocks: Seq<Seq<char>>) -> int
    decreases blocks.len(),
{
    if blocks.len() == 0 {
        0
    } else {
        let h = max_lines(blocks.drop_last());
        let l = lines_of(blocks.last()).len() as int;
        if l > h { l } else { h }
    }
}

/// Line `row` of `block`, or nothing when the block is shorter.
pub open spec fn line_or_empty(block: Seq<char>, row: int) -> Seq<char> {
    if row < lines_of(block).len() { lines_of(block)[row] } else { Seq::empty() }
}

/// The text that block `col` contributes to output row `row`: its line,
/// then, except for the last block, padding to the block's width and the gap.
pub open spec fn block_cell(blocks: Seq<Seq<char>>, gap: int, row: int, col: int) -> Seq<char> {
    let line = line_or_empty(blocks[col], row);
    if col < blocks.len() - 1 {
        line + spaces(max_visible_len(lines_of(blocks[col])) - visible_len_of(line)) + spaces(gap)
    } else {
        line
    }
}

/// The first `cols` cells of output row `row`.
pub open spec fn row_cells(blocks: Seq<Seq<char>>, gap: int, row: int, cols: int) -> Seq<char>
    decreases cols,
{
    if cols <= 0 {
        Seq::empty()
    } else {
        row_cells(blocks, gap, row, cols - 1) + block_cell(blocks, gap, row, cols - 1)
    }
}

/// The first `rows` output rows, each ended by a newline.
pub open spec fn side_by_side_rows(blocks: Seq<Seq<char>>, gap: int, rows: int) -> Seq<char>
    decreases rows,
{
    if rows <= 0 {
        Seq::empty()
    } else {
        side_by_side_rows(blocks, gap, rows - 1) + row_cells(blocks, gap, rows - 1, blocks.len() as int)
            + "\n"@
    }
}

/// The blocks joined side by side: as many rows as the tallest block has lines.
#[verifier::opaque]
pub open spec fn side_by_side_of(blocks: Seq<Seq<char>>, gap: int) -> Seq<char> {
    side_by_side_rows(blocks, gap, max_lines(blocks))
}

/// No line is wider than the widest.
pub proof fn lemma_max_visible_len_bounds(ls: Seq<Seq<char>>)
    ensures
        max_visible_len(ls) >= 0,
        forall|k: int| 0 <= k < ls.len() ==> visible_len_of(#[trigger] ls[k]) <= max_visible_len(ls),
    decreases ls.len(),
{
    if ls.len() > 0 {
        lemma_max_visible_len_bounds(ls.drop_last());
        assert forall|k: int| 0 <= k < ls.len() implies visible_len_of(#[trigger] ls[k])
            <= max_visible_len(ls) by {
            if k < ls.len() - 1 {
                assert(ls[k] == ls.drop_last()[k]);
            }
        }
    }
}

/// In every row of the side-by-side layout, each block but the last takes
/// exactly its width plus the gap in visible columns, whatever the visible
/// length of its line in that row, as long as its lines close their colour
/// codes.
pub proof fn lemma_side_by_side_columns(blocks: Seq<Seq<char>>, gap: int, row: int, col: int)
    requires
        0 <= col < blocks.len() - 1,
        0 <= row,
        gap >= 0,
        forall|k: int| 0 <= k < lines_of(blocks[col]).len() ==> !(#[trigger] ansi_scan(lines_of(blocks[col])[k])).1,
    ensures
        visible_len_of(block_cell(blocks, gap, row, col)) == max_visible_len(lines_of(blocks[col])) + gap,
        !ansi_scan(block_cell(blocks, gap, row, col)).1,
{
    let ls = lines_of(blocks[col]);
    let line = line_or_empty(blocks[col], row);
    lemma_max_visible_len_bounds(ls);
    if row < ls.len() {
        assert(!ansi_scan(ls[row]).1);
    } else {
        assert(ansi_scan(line) == (0int, false));
    }
    let w = max_visible_len(ls);
    let pad = spaces(w - visible_len_of(line));
    lemma_scan_plain(pad);
    lemma_scan_plain(spaces(gap));
    lemma_scan_concat(line, pad);
    lemma_scan_concat(line + pad, spaces(gap));
}

/// Visible width of the widest line of `lines`.
pub fn widest(lines: &Vec<&str>) -> (r: usize)
    ensures
        r == max_visible_len(lines@.map_values(|l: &str| l@)),
{
    let ghost views = lines@.map_values(|l: &str| l@);
    let mut w: usize = 0;
    let mut i: usize = 0;
    while i < lines.len()
        invariant
            i <= lines.len(),
            views == lines@.map_values(|l: &str| l@),
            w == max_visible_len(views.take(i as int)),
        decreases lines.len() - i,
    {
        let v = visible_len(lines[i]);
        proof {
            assert(views.take(i + 1).drop_last() =~= views.take(i as int));
        }
        if v > w {
            w = v;
        }
        i += 1;
    }
    proof { assert(views.take(i as int) =~= views); }
    w
}

/// Join multiple rendered blocks side-by-side with `gap` spaces between them.
/// Uses visible widths for padding so ANSI colour codes don't distort alignment.
pub fn side_by_side(blocks: &[String], gap: usize) -> (r: String)
    ensures
        r@ == side_by_side_of(blocks@.map_values(|b: String| b@), gap as int),
{
    reveal(side_by_side_of);
    let ghost bs = blocks@.map_values(|b: String| b@);
    let nb = blocks.len();
    let mut split: Vec<Vec<&str>> = Vec::new();
    let mut widths: Vec<usize> = Vec::new();
    let mut height: usize = 0;
    let mut b: usize = 0;
    while b < nb
        invariant
            nb == blocks@.len() == bs.len(),
            bs == blocks@.map_values(|b: String| b@),
            b <= nb,
            split@.len() == b,
            widths@.len() == b,
            height == max_lines(bs.take(b as int)),
            forall|k: int| 0 <= k < b ==> (#[trigger] split@[k])@.map_values(|l: &str| l@)
                == lines_of(bs[k]),
            forall|k: int| 0 <= k < b ==> #[trigger] widths@[k] == max_visible_len(lines_of(bs[k])),
        decreases nb - b,
    {
        let ls = split_lines(blocks[b].as_str());
        proof {
            assert(ls@.map_values(|l: &str| l@) =~= lines_of(bs[b as int]));
            assert(bs.take(b + 1).drop_last() =~= bs.take(b as int));
        }
        let w = widest(&ls);
        if ls.len() > height {
            height = ls.len();
        }
        split.push(ls);
        widths.push(w);
        b += 1;
    }
    proof { assert(bs.take(nb as int) =~= bs); }
    let mut result = String::new();
    let mut row: usize = 0;
    while row < height
        invariant
            nb == blocks@.len() == bs.len(),
            split@.len() == nb,
            widths@.len() == nb,
            height == max_lines(bs),
            row <= height,
            forall|k: int| 0 <= k < nb ==> (#[trigger] split@[k])@.map_values(|l: &str| l@)
                == lines_of(bs[k]),
            forall|k: int| 0 <= k < nb ==> #[trigger] widths@[k] == max_visible_len(lines_of(bs[k])),
            result@ == side_by_side_rows(bs, gap as int, row as int),
        decreases height - row,
    {
        let ghost before = result@;
        let mut col: usize = 0;
        while col < nb
            invariant
                nb == bs.len(),
                split@.len() == nb,
                widths@.len() == nb,
                col <= nb,
                forall|k: int| 0 <= k < nb ==> (#[trigger] split@[k])@.map_values(|l: &str| l@)
                    == lines_of(bs[k]),
                forall|k: int| 0 <= k < nb ==> #[trigger] widths@[k] == max_visible_len(lines_of(bs[k])),
                result@ == before + row_cells(bs, gap as int, row as int, col as int),
            decreases nb - col,
        {
            let lines = &split[col];
            let line: &str = if row < lines.len() { lines[row] } else { "" };
            proof {
                reveal_strlit("");
                assert(lines@ == split@[col as int]@);
                let views = lines@.map_values(|l: &str| l@);
                assert(views == lines_of(bs[col as int]));
                if row < lines.len() {
                    assert(views[row as int] == lines@[row as int]@);
                }
                assert(line@ == line_or_empty(bs[col as int], row as int));
            }
            result.append(line);
            if col < nb - 1 {
                let vis = visible_len(line);
                let pad = if widths[col] > vis { widths[col] - vis } else { 0 };
                push_spaces(&mut result, pad);
                push_spaces(&mut result, gap);
            }
            proof {
                assert(result@ =~= before + row_cells(bs, gap as int, row as int, col + 1));
            }
            col += 1;
        }
        result.append("\n");
        proof {
            assert(result@ =~= side_by_side_rows(bs, gap as int, row + 1));
        }
        row += 1;
    }
    result
}


/// `x` occurs in `s`, starting at some position.
pub open spec fn occurs_in(x: Seq<char>, s: Seq<char>) -> bool {
    exists|p: int| 0 <= p <= s.len() - x.len() && (#[trigger] s.skip(p)).take(x.len() as int) == x
}

/// No piece between newlines holds a newline.
proof fn lemma_split_pieces_no_newline(s: Seq<char>)
    ensures
        forall|j: int| 0 <= j < split_newlines(s).len() ==> no_newline(#[trigger] split_newlines(s)[j]),
    decreases s.len(),
{
    lemma_split_newlines_nonempty(s);
    if s.len() > 0 {
        lemma_split_pieces_no_newline(s.drop_last());
        lemma_split_newlines_nonempty(s.drop_last());
        let p = split_newlines(s.drop_last());
        if s.last() != '\n' {
            assert(no_newline(p.last()));
            assert(no_newline(p.last().push(s.last())));
        } else {
            assert(no_newline(Seq::<char>::empty()));
        }
        assert forall|j: int| 0 <= j < split_newlines(s).len() implies no_newline(
            #[trigger] split_newlines(s)[j]) by {
            if j < p.len() - 1 {
                assert(split_newlines(s)[j] == p[j]);
            }
        }
    }
}

/// The lines of a text hold no newline.
pub proof fn lemma_lines_no_newline(s: Seq<char>)
    ensures
        forall|j: int| 0 <= j < lines_of(s).len() ==> no_newline(#[trigger] lines_of(s)[j]),
{
    lemma_split_pieces_no_newline(s);
    lemma_split_newlines_nonempty(s);
    let p = split_newlines(s);
    assert forall|j: int| 0 <= j < lines_of(s).len() implies no_newline(#[trigger] lines_of(s)[j]) by {
        assert(no_newline(p[j]));
        let l = lines_of(s)[j];
        assert forall|i: int| 0 <= i < l.len() implies l[i] != '\n' by {
            assert(l[i] == p[j][i]);
        }
    }
}

proof fn lemma_no_newline_concat(a: Seq<char>, b: Seq<char>)
    requires
        no_newline(a),
        no_newline(b),
    ensures
        no_newline(a + b),
{
    assert forall|i: int| 0 <= i < (a + b).len() implies (a + b)[i] != '\n' by {
        if i < a.len() {
            assert((a + b)[i] == a[i]);
        } else {
            assert((a + b)[i] == b[i - a.len()]);
        }
    }
}

proof fn lemma_row_cells_no_newline(blocks: Seq<Seq<char>>, gap: int, row: int, cols: int)
    requires
        0 <= row,
        cols <= blocks.len(),
    ensures
        no_newline(row_cells(blocks, gap, row, cols)),
    decreases cols,
{
    if cols > 0 {
        lemma_row_cells_no_newline(blocks, gap, row, cols - 1);
        let c = cols - 1;
        lemma_lines_no_newline(blocks[c]);
        let line = line_or_empty(blocks[c], row);
        if row < lines_of(blocks[c]).len() {
            assert(no_newline(lines_of(blocks[c])[row]));
        }
        assert(no_newline(line));
        if c < blocks.len() - 1 {
            let s1 = spaces(max_visible_len(lines_of(blocks[c])) - visible_len_of(line));
            let s2 = spaces(gap);
            assert(no_newline(s1));
            assert(no_newline(s2));
            lemma_no_newline_concat(line, s1);
            lemma_no_newline_concat(line + s1, s2);
        }
        let cell = block_cell(blocks, gap, row, c);
        assert(no_newline(cell));
        lemma_no_newline_concat(row_cells(blocks, gap, row, c), cell);
    }
}

/// Output row `r` of the first `i` cells is a prefix of the row of all cells.
proof fn lemma_row_cells_prefix(blocks: Seq<Seq<char>>, gap: int, row: int, i: int, cols: int)
    requires
        0 <= i <= cols,
    ensures
        row_cells(blocks, gap, row, i).len() <= row_cells(blocks, gap, row, cols).len(),
        row_cells(blocks, gap, row, cols).take(row_cells(blocks, gap, row, i).len() as int)
            == row_cells(blocks, gap, row, i),
    decreases cols - i,
{
    if i < cols {
        lemma_row_cells_prefix(blocks, gap, row, i, cols - 1);
        let a = row_cells(blocks, gap, row, cols - 1);
        let c = block_cell(blocks, gap, row, cols - 1);
        let n = row_cells(blocks, gap, row, i).len() as int;
        assert((a + c).take(n) =~= a.take(n));
    } else {
        assert(row_cells(blocks, gap, row, cols).take(row_cells(blocks, gap, row, cols).len() as int)
            =~= row_cells(blocks, gap, row, cols));
    }
}

/// The rows of the layout, split at their newlines, with the empty piece after
/// the last newline.
proof fn lemma_side_by_side_rows_split(blocks: Seq<Seq<char>>, gap: int, h: int)
    requires
        h >= 0,
    ensures
        split_newlines(side_by_side_rows(blocks, gap, h))
            == Seq::new(h as nat, |r: int| row_cells(blocks, gap, r, blocks.len() as int)).push(
            Seq::empty(),
        ),
    decreases h,
{
    if h == 0 {
        assert(split_newlines(Seq::<char>::empty()) =~= seq![Seq::<char>::empty()]);
        assert(Seq::new(0, |r: int| row_cells(blocks, gap, r, blocks.len() as int)).push(Seq::empty())
            =~= seq![Seq::<char>::empty()]);
    } else {
        lemma_side_by_side_rows_split(blocks, gap, h - 1);
        let prev = side_by_side_rows(blocks, gap, h - 1);
        let row = row_cells(blocks, gap, h - 1, blocks.len() as int);
        lemma_row_cells_no_newline(blocks, gap, h - 1, blocks.len() as int);
        lemma_split_extend(prev, row);
        let before = Seq::new((h - 1) as nat, |r: int| row_cells(blocks, gap, r, blocks.len() as int));
        assert(Seq::<char>::empty() + row =~= row);
        assert(split_newlines(prev + row) =~= before.push(row));
        reveal_strlit("\n");
        let all = prev + row + "\n"@;
        assert(all.drop_last() =~= prev + row);
        assert(all.last() == '\n');
        assert(side_by_side_rows(blocks, gap, h) == all);
        assert(before.push(row) =~= Seq::new(h as nat, |r: int| row_cells(blocks, gap, r, blocks.len() as int)));
    }
}

/// The tallest block: no block has more lines, and, when there are blocks,
/// one has exactly that many.
proof fn lemma_max_lines_is_max(blocks: Seq<Seq<char>>)
    ensures
        max_lines(blocks) >= 0,
        forall|b: int| 0 <= b < blocks.len() ==> lines_of(#[trigger] blocks[b]).len() <= max_lines(blocks),
        blocks.len() > 0 ==> exists|b: int| 0 <= b < blocks.len()
            && max_lines(blocks) == lines_of(#[trigger] blocks[b]).len(),
    decreases blocks.len(),
{
    if blocks.len() > 0 {
        let front = blocks.drop_last();
        lemma_max_lines_is_max(front);
        assert forall|b: int| 0 <= b < blocks.len() implies lines_of(#[trigger] blocks[b]).len()
            <= max_lines(blocks) by {
            if b < blocks.len() - 1 {
                assert(blocks[b] == front[b]);
            }
        }
        let last = blocks.len() - 1;
        if lines_of(blocks[last]).len() as int > max_lines(front) || front.len() == 0 {
            assert(max_lines(blocks) == lines_of(blocks[last]).len());
        } else {
            let b = choose|b: int| 0 <= b < front.len() && max_lines(front) == lines_of(#[trigger] front[b]).len();
            assert(blocks[b] == front[b]);
            assert(max_lines(blocks) == lines_of(blocks[b]).len());
        }
    }
}

/// Blocks set side by side: the text is a run of rows, each ended by a
/// newline, as many as the tallest block has lines, so no fewer than any
/// block has. Row `k` holds line `k` of every block that has one, and starts
/// with line `k` of the first block.
pub proof fn lemma_side_by_side_rows_hold_lines(blocks: Seq<Seq<char>>, gap: int)
    ensures
        ({
            let rows = split_newlines(side_by_side_of(blocks, gap));
            &&& rows.len() >= 1
            &&& rows.last().len() == 0
            &&& blocks.len() == 0 ==> rows.len() == 1
            &&& forall|b: int| 0 <= b < blocks.len() ==> lines_of(#[trigger] blocks[b]).len() <= rows.len() - 1
            &&& blocks.len() > 0 ==> exists|b: int| 0 <= b < blocks.len()
                && rows.len() - 1 == lines_of(#[trigger] blocks[b]).len()
            &&& forall|b: int, k: int| 0 <= b < blocks.len() && 0 <= k < lines_of(blocks[b]).len()
                ==> occurs_in(#[trigger] lines_of(blocks[b])[k], rows[k])
            &&& forall|k: int| blocks.len() > 0 && 0 <= k < lines_of(blocks[0]).len() ==> {
                &&& lines_of(blocks[0])[k].len() <= rows[k].len()
                &&& rows[k].take(lines_of(blocks[0])[k].len() as int) == lines_of(blocks[0])[k]
            }
        }),
{
    reveal(side_by_side_of);
    let h = max_lines(blocks);
    lemma_max_lines_is_max(blocks);
    lemma_side_by_side_rows_split(blocks, gap, h);
    let n = blocks.len() as int;
    let rows = split_newlines(side_by_side_of(blocks, gap));
    assert(rows.len() == h + 1);
    assert forall|b: int, k: int| 0 <= b < blocks.len() && 0 <= k < lines_of(blocks[b]).len()
        implies occurs_in(#[trigger] lines_of(blocks[b])[k], rows[k]) by {
        let line = lines_of(blocks[b])[k];
        assert(k < h);
        assert(rows[k] == row_cells(blocks, gap, k, n));
        lemma_row_cells_prefix(blocks, gap, k, b + 1, n);
        let pre = row_cells(blocks, gap, k, b);
        let cell = block_cell(blocks, gap, k, b);
        assert(line_or_empty(blocks[b], k) == line);
        assert(row_cells(blocks, gap, k, b + 1) == pre + cell);
        let p = pre.len() as int;
        let row = rows[k];
        assert(row.take(p + cell.len()) == pre + cell);
        assert(cell.take(line.len() as int) =~= line);
        assert(row.skip(p).take(line.len() as int) =~= line) by {
            assert forall|i: int| 0 <= i < line.len() implies row.skip(p).take(line.len() as int)[i] == line[i] by {
                assert(row.take(p + cell.len())[p + i] == row[p + i]);
                assert((pre + cell)[p + i] == cell[i]);
            }
        }
    }
    assert forall|k: int| blocks.len() > 0 && 0 <= k < lines_of(blocks[0]).len() implies {
        &&& lines_of(blocks[0])[k].len() <= rows[k].len()
        &&& rows[k].take(lines_of(blocks[0])[k].len() as int) == lines_of(blocks[0])[k]
    } by {
        let line = lines_of(blocks[0])[k];
        assert(k < h);
        assert(rows[k] == row_cells(blocks, gap, k, n));
        lemma_row_cells_prefix(blocks, gap, k, 1, n);
        let cell = block_cell(blocks, gap, k, 0);
        assert(row_cells(blocks, gap, k, 0) == Seq::<char>::empty());
        assert(row_cells(blocks, gap, k, 1) =~= cell);
        assert(line_or_empty(blocks[0], k) == line);
        assert(cell.take(line.len() as int) =~= line);
        assert(rows[k].take(line.len() as int) =~= line) by {
            assert forall|i: int| 0 <= i < line.len() implies rows[k][i] == line[i] by {
                assert(rows[k].take(cell.len() as int)[i] == rows[k][i]);
                assert(cell.take(line.len() as int)[i] == cell[i]);
            }
        }
    }
}

} // verus!
