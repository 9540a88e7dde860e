//! Scanning call text: quoted strings, nesting, and the places at which text is cut.

use crate::text;
use vstd::prelude::*;
use vstd::string::*;

verus! {

/// Where a scan stands relative to double-quoted strings.
#[derive(Clone, Copy, PartialEq, Eq, Structural, Debug)]
pub enum Mode {
    /// Outside any string.
    Code,
    /// Inside a string.
    Quoted,
    /// Inside a string, right after a backslash.
    Escaped,
}

/// The mode after reading `c` in mode `m`.
pub open spec fn next_mode(m: Mode, c: char) -> Mode {
    match m {
        Mode::Code => if c == '"' {
            Mode::Quoted
        } else {
            Mode::Code
        },
        Mode::Quoted => if c == '\\' {
            Mode::Escaped
        } else if c == '"' {
            Mode::Code
        } else {
            Mode::Quoted
        },
        Mode::Escaped => Mode::Quoted,
    }
}

/// The mode after reading all of `s`, starting outside any string.
pub open spec fn mode_after(s: Seq<char>) -> Mode
    decreases s.len(),
{
    if s.len() == 0 {
        Mode::Code
    } else {
        next_mode(mode_after(s.drop_last()), s.last())
    }
}

/// The bracket pairs whose nesting is counted.
#[derive(Clone, Copy, PartialEq, Eq, Structural, Debug)]
pub enum Fence {
    /// `(` and `)`.
    Paren,
    /// `[` and `]`, `{` and `}`.
    Bracket,
}

/// How far `c`, read outside strings, moves the nesting level.
pub open spec fn shift(f: Fence, c: char) -> int {
    match f {
        Fence::Paren => if c == '(' {
            1
        } else if c == ')' {
            -1
        } else {
            0
        },
        Fence::Bracket => if c == '[' || c == '{' {
            1
        } else if c == ']' || c == '}' {
            -1
        } else {
            0
        },
    }
}

/// The nesting level after reading all of `s`: openers less closers, strings left out.
pub open spec fn level(f: Fence, s: Seq<char>) -> int
    decreases s.len(),
{
    if s.len() == 0 {
        0
    } else {
        let before = s.drop_last();
        level(f, before) + if mode_after(before) is Code {
            shift(f, s.last())
        } else {
            0
        }
    }
}

/// Whether the parenthesis that opens `s` is closed at position `i`.
pub open spec fn closes_at(s: Seq<char>, i: int) -> bool {
    &&& 0 <= i < s.len()
    &&& s[i] == ')'
    &&& mode_after(s.take(i)) is Code
    &&& level(Fence::Paren, s.take(i + 1)) == 0
}

/// The first position, not before `i`, at which the parenthesis that opens `s` is closed.
pub open spec fn closing_from(s: Seq<char>, i: int) -> Option<int>
    decreases s.len() - i,
{
    if i < 0 || i >= s.len() {
        None
    } else if closes_at(s, i) {
        Some(i)
    } else {
        closing_from(s, i + 1)
    }
}

/// The position at which the parenthesis that opens `s` is closed.
pub open spec fn closing(s: Seq<char>) -> Option<int> {
    closing_from(s, 0)
}

/// The kinds of place at which text is cut into pieces.
#[derive(Clone, Copy, PartialEq, Eq, Structural, Debug)]
pub enum Cut {
    /// At every line feed.
    Line,
    /// At every comma outside strings and at bracket level zero.
    Argument,
}

/// Whether the character `c`, read after `before`, is a place to cut at.
pub open spec fn cuts(k: Cut, before: Seq<char>, c: char) -> bool {
    match k {
        Cut::Line => c == '\n',
        Cut::Argument => {
            &&& c == ','
            &&& mode_after(before) is Code
            &&& level(Fence::Bracket, before) == 0
        },
    }
}

/// The pieces of `s` between the places to cut at, which belong to no piece.
pub open spec fn split(k: Cut, s: Seq<char>) -> Seq<Seq<char>>
    decreases s.len(),
{
    if s.len() == 0 {
        seq![Seq::empty()]
    } else {
        let before = s.drop_last();
        let pieces = split(k, before);
        if cuts(k, before, s.last()) {
            pieces.push(Seq::empty())
        } else {
            pieces.drop_last().push(pieces.last().push(s.last()))
        }
    }
}

/// Text in which every parenthesis outside strings is closed, and closed after it was opened.
pub open spec fn parens_closed(s: Seq<char>) -> bool {
    &&& level(Fence::Paren, s) == 0
    &&& forall|i: int| 0 <= i < s.len() ==> level(Fence::Paren, #[trigger] s.take(i)) >= 0
}

/// Text that holds no place to cut at.
pub open spec fn uncut(k: Cut, s: Seq<char>) -> bool {
    forall|i: int| 0 <= i < s.len() ==> !cuts(k, #[trigger] s.take(i), s[i])
}

/// Text in which strings, brackets and parentheses are closed.
pub open spec fn balanced(s: Seq<char>) -> bool {
    &&& mode_after(s) is Code
    &&& level(Fence::Bracket, s) == 0
    &&& parens_closed(s)
}

/// Text that can stand in an argument list as it is: balanced, and without top-level commas.
pub open spec fn tidy(s: Seq<char>) -> bool {
    &&& balanced(s)
    &&& uncut(Cut::Argument, s)
}

/// Text on one line.
pub open spec fn one_line(s: Seq<char>) -> bool {
    forall|i: int| 0 <= i < s.len() ==> s[i] != '\n'
}

/// Text that can stand as the value of an argument: tidy, on one line, and neither empty nor
/// with white space at an end.
pub open spec fn standalone(s: Seq<char>) -> bool {
    &&& s.len() > 0
    &&& text::is_trimmed(s)
    &&& one_line(s)
    &&& tidy(s)
}

/// Advances a scan by one character.
pub fn step_mode(m: Mode, c: char) -> (r: Mode)
    ensures
        r == next_mode(m, c),
{
    match m {
        Mode::Code => if c == '"' {
            Mode::Quoted
        } else {
            Mode::Code
        },
        Mode::Quoted => if c == '\\' {
            Mode::Escaped
        } else if c == '"' {
            Mode::Code
        } else {
            Mode::Quoted
        },
        Mode::Escaped => Mode::Quoted,
    }
}

/// The nesting level moves by at most one per character.
proof fn lemma_level_bound(f: Fence, s: Seq<char>)
    ensures
        -s.len() <= level(f, s) <= s.len(),
    decreases s.len(),
{
    if s.len() > 0 {
        lemma_level_bound(f, s.drop_last());
    }
}

/// Finds where the parenthesis that opens `s` is closed.
pub fn closing_position(s: &Vec<char>) -> (r: Option<usize>)
    ensures
        match r {
            Some(i) => closing(s@) == Some(i as int) && closes_at(s@, i as int),
            None => closing(s@) is None,
        },
{
    let n: usize = s.len();
    let mut mode = Mode::Code;
    let mut depth: i128 = 0;
    let mut i: usize = 0;
    while i < n
        invariant
            i <= n,
            n == s@.len(),
            mode == mode_after(s@.take(i as int)),
            depth == level(Fence::Paren, s@.take(i as int)),
            closing(s@) == closing_from(s@, i as int),
        decreases n - i,
    {
        let c: char = s[i];
        proof {
            let upto = s@.take(i + 1);
            assert(upto.drop_last() == s@.take(i as int));
            assert(upto.last() == c);
            lemma_level_bound(Fence::Paren, s@.take(i as int));
        }
        if let Mode::Code = mode {
            if c == '(' {
                depth = depth + 1;
            } else if c == ')' {
                depth = depth - 1;
                if depth == 0 {
                    return Some(i);
                }
            }
        }
        mode = step_mode(mode, c);
        i += 1;
    }
    None
}

/// Splits `args_str` on its top-level commas: those not inside a quoted string, `[...]` or
/// `{...}`.
pub fn split_top_level_commas<'a>(args_str: &'a str) -> (r: Vec<&'a str>)
    ensures
        text::slices(r@) == split(Cut::Argument, args_str@),
{
    let chars = text::chars_of(args_str);
    let n: usize = chars.len();
    let mut parts: Vec<&'a str> = Vec::new();
    let mut start: usize = 0;
    let mut depth: i128 = 0;
    let mut mode = Mode::Code;
    let mut i: usize = 0;
    assert(args_str@.subrange(0, 0) == Seq::<char>::empty());
    assert(split(Cut::Argument, args_str@.take(0)) == text::slices(parts@).push(args_str@.subrange(0, 0)));
    while i < n
        invariant
            start <= i <= n,
            n == chars@.len(),
            chars@ == args_str@,
            mode == mode_after(args_str@.take(i as int)),
            depth == level(Fence::Bracket, args_str@.take(i as int)),
            split(Cut::Argument, args_str@.take(i as int)) == text::slices(parts@).push(
                args_str@.subrange(start as int, i as int),
            ),
        decreases n - i,
    {
        let c: char = chars[i];
        let ghost done = parts@;
        proof {
            let upto = args_str@.take(i + 1);
            assert(upto.drop_last() == args_str@.take(i as int));
            assert(upto.last() == c);
            lemma_level_bound(Fence::Bracket, args_str@.take(i as int));
        }
        if let Mode::Code = mode {
            if c == '[' || c == '{' {
                depth = depth + 1;
            } else if c == ']' || c == '}' {
                depth = depth - 1;
            } else if c == ',' && depth == 0 {
                parts.push(args_str.substring_char(start, i));
                start = i + 1;
                assert(text::slices(parts@) == text::slices(done).push(parts@.last()@));
            }
        }
        mode = step_mode(mode, c);
        i += 1;
        proof {
            let piece = args_str@.subrange(start as int, i as int);
            if start == i {
                assert(piece == Seq::<char>::empty());
            } else {
                assert(piece == args_str@.subrange(start as int, i - 1).push(c));
                assert(text::slices(parts@).push(args_str@.subrange(start as int, i - 1)).drop_last()
                    == text::slices(parts@));
            }
        }
    }
    assert(args_str@.take(n as int) == args_str@);
    parts.push(args_str.substring_char(start, n));
    parts
}

/// Splits `content` at its line feeds.
fn split_lines<'a>(content: &'a str) -> (r: Vec<&'a str>)
    ensures
        text::slices(r@) == split(Cut::Line, content@),
{
    let chars = text::chars_of(content);
    let n: usize = chars.len();
    let mut parts: Vec<&'a str> = Vec::new();
    let mut start: usize = 0;
    let mut i: usize = 0;
    assert(content@.subrange(0, 0) == Seq::<char>::empty());
    assert(split(Cut::Line, content@.take(0)) == text::slices(parts@).push(content@.subrange(0, 0)));
    while i < n
        invariant
            start <= i <= n,
            n == chars@.len(),
            chars@ == content@,
            split(Cut::Line, content@.take(i as int)) == text::slices(parts@).push(
                content@.subrange(start as int, i as int),
            ),
        decreases n - i,
    {
        let c: char = chars[i];
        let ghost done = parts@;
        proof {
            let upto = content@.take(i + 1);
            assert(upto.drop_last() == content@.take(i as int));
            assert(upto.last() == c);
        }
        if c == '\n' {
            parts.push(content.substring_char(start, i));
            start = i + 1;
            assert(text::slices(parts@) == text::slices(done).push(parts@.last()@));
        }
        i += 1;
        proof {
            let piece = content@.subrange(start as int, i as int);
            if start == i {
                assert(piece == Seq::<char>::empty());
            } else {
                assert(piece == content@.subrange(start as int, i - 1).push(c));
                assert(text::slices(parts@).push(content@.subrange(start as int, i - 1)).drop_last()
                    == text::slices(parts@));
            }
        }
    }
    assert(content@.take(n as int) == content@);
    parts.push(content.substring_char(start, n));
    parts
}

/// `lines` with the white space around each stripped and the empty ones left out.
pub open spec fn trimmed_lines(lines: Seq<Seq<char>>) -> Seq<Seq<char>>
    decreases lines.len(),
{
    if lines.len() == 0 {
        Seq::empty()
    } else {
        let done = trimmed_lines(lines.drop_last());
        let line = text::trimmed(lines.last());
        if line.len() == 0 {
            done
        } else {
            done.push(line)
        }
    }
}

/// The calls that a `<function_calls>` body holds: its lines, trimmed, without the empty ones.
pub open spec fn call_lines(content: Seq<char>) -> Seq<Seq<char>> {
    trimmed_lines(split(Cut::Line, content))
}

/// Splits a `<function_calls>` body into individual `name(args)` calls.
///
/// Calls are joined by line feeds; a line feed inside a call can only occur as this separator,
/// because argument values are JSON text, which never holds a raw line feed.
pub fn split_calls<'a>(content: &'a str) -> (r: Vec<&'a str>)
    ensures
        text::slices(r@) == call_lines(content@),
{
    let lines = split_lines(content);
    let n: usize = lines.len();
    let mut calls: Vec<&'a str> = Vec::new();
    let mut i: usize = 0;
    while i < n
        invariant
            i <= n,
            n == lines@.len(),
            text::slices(calls@) == trimmed_lines(text::slices(lines@).take(i as int)),
        decreases n - i,
    {
        let ghost done = calls@;
        proof {
            let upto = text::slices(lines@).take(i + 1);
            assert(upto.drop_last() == text::slices(lines@).take(i as int));
            assert(upto.last() == lines@[i as int]@);
        }
        let line = text::trim(lines[i]);
        if !line.is_empty() {
            calls.push(line);
            assert(text::slices(calls@) == text::slices(done).push(line@));
        }
        i += 1;
    }
    assert(text::slices(lines@).take(n as int) == text::slices(lines@));
    calls
}

/// After text that ends outside strings, a scan goes on as from the start.
pub proof fn lemma_mode_concat(a: Seq<char>, b: Seq<char>)
    requires
        mode_after(a) is Code,
    ensures
        mode_after(a + b) == mode_after(b),
    decreases b.len(),
{
    if b.len() == 0 {
        assert(a + b == a);
    } else {
        assert((a + b).drop_last() == a + b.drop_last());
        lemma_mode_concat(a, b.drop_last());
    }
}

/// After text that ends outside strings, levels add up.
pub proof fn lemma_level_concat(f: Fence, a: Seq<char>, b: Seq<char>)
    requires
        mode_after(a) is Code,
    ensures
        level(f, a + b) == level(f, a) + level(f, b),
    decreases b.len(),
{
    if b.len() == 0 {
        assert(a + b == a);
    } else {
        assert((a + b).drop_last() == a + b.drop_last());
        lemma_level_concat(f, a, b.drop_last());
        lemma_mode_concat(a, b.drop_last());
    }
}

/// Balanced texts in a row are balanced.
pub proof fn lemma_balanced_concat(a: Seq<char>, b: Seq<char>)
    requires
        balanced(a),
        balanced(b),
    ensures
        balanced(a + b),
{
    let s = a + b;
    lemma_mode_concat(a, b);
    lemma_level_concat(Fence::Bracket, a, b);
    lemma_level_concat(Fence::Paren, a, b);
    assert forall|i: int| 0 <= i < s.len() implies level(Fence::Paren, #[trigger] s.take(i)) >= 0 by {
        if i < a.len() {
            assert(s.take(i) == a.take(i));
        } else {
            assert(s.take(i) == a + b.take(i - a.len()));
            lemma_level_concat(Fence::Paren, a, b.take(i - a.len()));
        }
    }
}

/// After balanced text, the places to cut an argument list at are as from the start.
proof fn lemma_cuts_concat(a: Seq<char>, b: Seq<char>, c: char)
    requires
        balanced(a),
    ensures
        cuts(Cut::Argument, a + b, c) == cuts(Cut::Argument, b, c),
{
    lemma_mode_concat(a, b);
    lemma_level_concat(Fence::Bracket, a, b);
}

/// Tidy texts in a row are tidy.
pub proof fn lemma_tidy_concat(a: Seq<char>, b: Seq<char>)
    requires
        tidy(a),
        tidy(b),
    ensures
        tidy(a + b),
{
    let s = a + b;
    lemma_balanced_concat(a, b);
    assert forall|i: int| 0 <= i < s.len() implies !cuts(Cut::Argument, #[trigger] s.take(i), s[i]) by {
        if i < a.len() {
            assert(s.take(i) == a.take(i));
        } else {
            assert(s.take(i) == a + b.take(i - a.len()));
            lemma_cuts_concat(a, b.take(i - a.len()), s[i]);
        }
    }
}

/// Whether `c` means nothing to a scan.
pub open spec fn inert(c: char) -> bool {
    c != '"' && c != '(' && c != ')' && c != '[' && c != ']' && c != '{' && c != '}' && c != ','
}

/// Text of inert characters is tidy.
pub proof fn lemma_inert_tidy(s: Seq<char>)
    requires
        forall|i: int| 0 <= i < s.len() ==> inert(s[i]),
    ensures
        tidy(s),
    decreases s.len(),
{
    if s.len() > 0 {
        let before = s.drop_last();
        lemma_inert_tidy(before);
        assert forall|i: int| 0 <= i < s.len() implies level(Fence::Paren, #[trigger] s.take(i)) >= 0 by {
            assert(s.take(i) == before.take(i));
        }
    }
}

/// Cutting text in two at a place to cut at: what follows is the last piece, if it holds no
/// further such place.
pub proof fn lemma_split_at(k: Cut, a: Seq<char>, c: char, b: Seq<char>)
    requires
        cuts(k, a, c),
        forall|i: int| 0 <= i < b.len() ==> !cuts(k, a.push(c) + #[trigger] b.take(i), b[i]),
    ensures
        split(k, a.push(c) + b) == split(k, a).push(b),
    decreases b.len(),
{
    let s = a.push(c) + b;
    if b.len() == 0 {
        assert(s == a.push(c));
        assert(s.drop_last() == a);
        assert(b == Seq::<char>::empty());
    } else {
        let short = b.drop_last();
        assert forall|i: int| 0 <= i < short.len() implies !cuts(
            k,
            a.push(c) + #[trigger] short.take(i),
            short[i],
        ) by {
            assert(short.take(i) == b.take(i));
        }
        lemma_split_at(k, a, c, short);
        assert(s.drop_last() == a.push(c) + short);
        assert(b.take(b.len() - 1) == short);
        assert(split(k, a).push(short).drop_last() == split(k, a));
        assert(short.push(b.last()) == b);
    }
}

/// Adding a comma and a tidy text to balanced text adds one piece.
pub proof fn lemma_add_piece(a: Seq<char>, b: Seq<char>)
    requires
        balanced(a),
        tidy(b),
    ensures
        balanced(a.push(',') + b),
        split(Cut::Argument, a.push(',') + b) == split(Cut::Argument, a).push(b),
{
    let comma = seq![','];
    reveal_with_fuel(mode_after, 2);
    reveal_with_fuel(level, 2);
    assert(balanced(comma));
    lemma_balanced_concat(a, comma);
    assert(a.push(',') == a + comma);
    lemma_balanced_concat(a.push(','), b);
    assert forall|i: int| 0 <= i < b.len() implies !cuts(
        Cut::Argument,
        a.push(',') + #[trigger] b.take(i),
        b[i],
    ) by {
        lemma_cuts_concat(a.push(','), b.take(i), b[i]);
    }
    lemma_split_at(Cut::Argument, a, ',', b);
}

/// Text without a place to cut at is one piece.
pub proof fn lemma_split_uncut(k: Cut, s: Seq<char>)
    requires
        uncut(k, s),
    ensures
        split(k, s) == seq![s],
    decreases s.len(),
{
    if s.len() == 0 {
        assert(s == Seq::<char>::empty());
    } else {
        let before = s.drop_last();
        assert forall|i: int| 0 <= i < before.len() implies !cuts(
            k,
            #[trigger] before.take(i),
            before[i],
        ) by {
            assert(before.take(i) == s.take(i));
        }
        lemma_split_uncut(k, before);
        assert(s.take(s.len() - 1) == before);
        assert(before.push(s.last()) == s);
        assert(split(k, s) =~= seq![s]);
    }
}

/// The separator that stands at a place to cut at.
pub open spec fn separator(k: Cut) -> Seq<char> {
    match k {
        Cut::Line => seq!['\n'],
        Cut::Argument => seq![','],
    }
}

/// Cutting loses nothing: there is always a piece, and the pieces joined again by the separator
/// are the text that was cut.
pub proof fn law_split_join(k: Cut, s: Seq<char>)
    ensures
        split(k, s).len() > 0,
        text::join(split(k, s), separator(k)) == s,
    decreases s.len(),
{
    let pieces = split(k, s);
    if s.len() == 0 {
        assert(s == Seq::<char>::empty());
    } else {
        let before = s.drop_last();
        let prior = split(k, before);
        law_split_join(k, before);
        if cuts(k, before, s.last()) {
            assert(pieces.drop_last() == prior);
            assert(before + separator(k) + Seq::<char>::empty() == s);
        } else {
            assert(pieces.drop_last() == prior.drop_last());
            assert(pieces.last() == prior.last().push(s.last()));
            if prior.len() > 1 {
                assert(text::join(prior.drop_last(), separator(k)) + separator(k) + prior.last().push(
                    s.last(),
                ) == before.push(s.last()));
            }
            assert(before.push(s.last()) == s);
        }
    }
}

/// No piece holds a place to cut at.
pub proof fn law_pieces_uncut(k: Cut, s: Seq<char>)
    ensures
        forall|i: int| 0 <= i < split(k, s).len() ==> uncut(k, #[trigger] split(k, s)[i]),
{
    lemma_pieces_uncut(k, s);
}

/// A scan of the last piece from its start ends as a scan of the whole text does.
proof fn lemma_pieces_uncut(k: Cut, s: Seq<char>)
    ensures
        split(k, s).len() > 0,
        forall|i: int| 0 <= i < split(k, s).len() ==> uncut(k, #[trigger] split(k, s)[i]),
        k is Argument ==> mode_after(s) == mode_after(split(k, s).last()),
        k is Argument ==> level(Fence::Bracket, s) == level(Fence::Bracket, split(k, s).last()),
    decreases s.len(),
{
    if s.len() > 0 {
        let before = s.drop_last();
        let c = s.last();
        let prior = split(k, before);
        let piece = prior.last();
        lemma_pieces_uncut(k, before);
        if !cuts(k, before, c) {
            let longer = piece.push(c);
            assert(longer.drop_last() == piece);
            assert(!cuts(k, piece, c));
            assert forall|i: int| 0 <= i < longer.len() implies !cuts(
                k,
                #[trigger] longer.take(i),
                longer[i],
            ) by {
                if i < piece.len() {
                    assert(longer.take(i) == piece.take(i));
                } else {
                    assert(longer.take(i) == piece);
                }
            }
            assert forall|i: int| 0 <= i < split(k, s).len() implies uncut(
                k,
                #[trigger] split(k, s)[i],
            ) by {
                if i < prior.len() - 1 {
                    assert(split(k, s)[i] == prior[i]);
                }
            }
        } else {
            assert forall|i: int| 0 <= i < split(k, s).len() implies uncut(
                k,
                #[trigger] split(k, s)[i],
            ) by {
                if i < prior.len() {
                    assert(split(k, s)[i] == prior[i]);
                }
            }
        }
    }
}

/// The calls of a group are not empty, have no white space at their ends, and are on one line
/// each.
pub proof fn law_call_lines(content: Seq<char>)
    ensures
        forall|i: int|
            0 <= i < call_lines(content).len() ==> {
                let line = #[trigger] call_lines(content)[i];
                &&& line.len() > 0
                &&& text::is_trimmed(line)
                &&& one_line(line)
            },
{
    let lines = split(Cut::Line, content);
    lemma_pieces_uncut(Cut::Line, content);
    assert forall|i: int| 0 <= i < lines.len() implies one_line(#[trigger] lines[i]) by {
        assert forall|j: int| 0 <= j < lines[i].len() implies lines[i][j] != '\n' by {
            assert(!cuts(Cut::Line, lines[i].take(j), lines[i][j]));
        }
    }
    lemma_trimmed_lines(lines);
}

proof fn lemma_trimmed_lines(lines: Seq<Seq<char>>)
    requires
        forall|i: int| 0 <= i < lines.len() ==> one_line(#[trigger] lines[i]),
    ensures
        forall|i: int|
            0 <= i < trimmed_lines(lines).len() ==> {
                let line = #[trigger] trimmed_lines(lines)[i];
                &&& line.len() > 0
                &&& text::is_trimmed(line)
                &&& one_line(line)
            },
    decreases lines.len(),
{
    if lines.len() > 0 {
        lemma_trimmed_lines(lines.drop_last());
        text::law_trimmed(lines.last());
        let from = text::lemma_trimmed_part(lines.last());
        let done = trimmed_lines(lines.drop_last());
        let line = text::trimmed(lines.last());
        assert(one_line(lines[lines.len() - 1]));
        assert forall|j: int| 0 <= j < line.len() implies line[j] != '\n' by {
            assert(line[j] == lines.last()[from + j]);
        }
        assert forall|i: int| 0 <= i < trimmed_lines(lines).len() implies ({
            let line = #[trigger] trimmed_lines(lines)[i];
            &&& line.len() > 0
            &&& text::is_trimmed(line)
            &&& one_line(line)
        }) by {
            if i < done.len() {
                assert(trimmed_lines(lines)[i] == done[i]);
            }
        }
    }
}

/// Lines that are trimmed, not empty and on one line each are given back when they are joined
/// by line feeds and split again.
pub proof fn law_lines_back(lines: Seq<Seq<char>>)
    requires
        forall|i: int|
            0 <= i < lines.len() ==> (#[trigger] lines[i]).len() > 0 && text::is_trimmed(lines[i])
                && one_line(lines[i]),
    ensures
        call_lines(text::join(lines, seq!['\n'])) == lines,
        text::is_trimmed(text::join(lines, seq!['\n'])),
    decreases lines.len(),
{
    let body = text::join(lines, seq!['\n']);
    if lines.len() == 0 {
        reveal_with_fuel(trimmed_lines, 2);
        assert(split(Cut::Line, body) == seq![Seq::<char>::empty()]);
        assert(lines == Seq::<Seq<char>>::empty());
    } else {
        let line = lines.last();
        let before = lines.drop_last();
        text::law_trimmed(line);
        assert(lines == before.push(line));
        if lines.len() == 1 {
            lemma_split_uncut(Cut::Line, body);
            assert(seq![line].drop_last() == Seq::<Seq<char>>::empty());
            assert(before == Seq::<Seq<char>>::empty());
            reveal_with_fuel(trimmed_lines, 2);
        } else {
            law_lines_back(before);
            let a = text::join(before, seq!['\n']);
            assert(body == a.push('\n') + line);
            lemma_split_at(Cut::Line, a, '\n', line);
            assert(split(Cut::Line, body).drop_last() == split(Cut::Line, a));
            lemma_join_start(before);
        }
    }
}

/// The first piece of text that begins with a line, if that ends there, is the line.
proof fn lemma_first_piece(line: Seq<char>, tail: Seq<char>)
    requires
        one_line(line),
        tail.len() > 0 ==> tail[0] == '\n',
    ensures
        split(Cut::Line, line + tail)[0] == line,
        split(Cut::Line, line + tail).len() > if tail.len() > 0 {
            1int
        } else {
            0
        },
    decreases tail.len(),
{
    let s = line + tail;
    if tail.len() == 0 {
        assert(s == line);
        lemma_split_uncut(Cut::Line, line);
    } else {
        assert(s.drop_last() == line + tail.drop_last());
        lemma_first_piece(line, tail.drop_last());
    }
}

/// A first line that is trimmed and not empty stays the first.
proof fn lemma_first_trimmed(lines: Seq<Seq<char>>)
    requires
        lines.len() > 0,
        lines[0].len() > 0,
        text::is_trimmed(lines[0]),
    ensures
        trimmed_lines(lines).len() > 0,
        trimmed_lines(lines)[0] == lines[0],
    decreases lines.len(),
{
    if lines.len() > 1 {
        lemma_first_trimmed(lines.drop_last());
    } else {
        reveal_with_fuel(trimmed_lines, 2);
        text::law_trimmed(lines[0]);
    }
}

/// Text that begins with a call on a line of its own has that as its first call.
pub proof fn law_first_line(line: Seq<char>, tail: Seq<char>)
    requires
        line.len() > 0,
        text::is_trimmed(line),
        one_line(line),
        tail.len() > 0 ==> tail[0] == '\n',
    ensures
        call_lines(line + tail).len() > 0,
        call_lines(line + tail)[0] == line,
{
    lemma_first_piece(line, tail);
    lemma_first_trimmed(split(Cut::Line, line + tail));
}

/// Joined lines that are not empty begin with the first line.
proof fn lemma_join_start(lines: Seq<Seq<char>>)
    requires
        lines.len() > 0,
        lines[0].len() > 0,
    ensures
        text::join(lines, seq!['\n']).len() > 0,
        text::join(lines, seq!['\n'])[0] == lines[0][0],
    decreases lines.len(),
{
    if lines.len() > 1 {
        lemma_join_start(lines.drop_last());
    }
}

/// A closing place before which there is none is the one found.
pub proof fn lemma_closing_is(s: Seq<char>, i: int, k: int)
    requires
        0 <= i <= k,
        closes_at(s, k),
        forall|j: int| i <= j < k ==> !closes_at(s, j),
    ensures
        closing_from(s, i) == Some(k),
    decreases k - i,
{
    if i < k {
        lemma_closing_is(s, i + 1, k);
    }
}

/// Balanced text in parentheses is closed by the last of them.
#[verifier::spinoff_prover]
pub proof fn lemma_enclosed(list: Seq<char>)
    requires
        balanced(list),
    ensures
        closing(seq!['('] + list + seq![')']) == Some(list.len() as int + 1),
{
    let lead = seq!['('];
    let rest = lead + list + seq![')'];
    let close = list.len() as int + 1;
    reveal_with_fuel(mode_after, 2);
    reveal_with_fuel(level, 2);
    assert(mode_after(lead) is Code);
    assert(level(Fence::Paren, lead) == 1);
    assert forall|j: int| 0 <= j < close implies !closes_at(rest, j) by {
        if j > 0 {
            assert(rest.take(j + 1) == lead + list.take(j));
            lemma_level_concat(Fence::Paren, lead, list.take(j));
            assert(list.take(list.len() as int) == list);
        }
    }
    assert(rest.take(close) == lead + list);
    lemma_mode_concat(lead, list);
    lemma_level_concat(Fence::Paren, lead, list);
    assert(rest.take(close + 1) == rest);
    assert(rest.drop_last() == lead + list);
    assert(closes_at(rest, close));
    lemma_closing_is(rest, 0, close);
}

/// A scan starts outside strings and at level zero. There, every character but the double quote
/// leaves it outside strings, and only brackets move the level, by one each.
pub proof fn law_scan_code(f: Fence, s: Seq<char>, c: char)
    requires
        mode_after(s) is Code,
        c != '"',
    ensures
        mode_after(Seq::<char>::empty()) is Code,
        level(f, Seq::<char>::empty()) == 0,
        mode_after(s.push(c)) is Code,
        level(f, s.push(c)) - level(f, s) == match f {
            Fence::Paren => if c == '(' {
                1int
            } else if c == ')' {
                -1
            } else {
                0
            },
            Fence::Bracket => if c == '[' || c == '{' {
                1int
            } else if c == ']' || c == '}' {
                -1
            } else {
                0
            },
        },
{
    assert(s.push(c).drop_last() == s);
}

/// A scan passes over a string: a double quote, then any characters but double quotes and
/// backslashes, and any characters after a backslash, then a double quote. Nothing in it moves
/// a level, wherever in the string the text ends.
#[verifier::spinoff_prover]
pub proof fn law_scan_string(f: Fence, s: Seq<char>, units: Seq<Seq<char>>)
    requires
        mode_after(s) is Code,
        forall|i: int|
            0 <= i < units.len() ==> {
                let unit = #[trigger] units[i];
                ||| unit.len() == 1 && unit[0] != '"' && unit[0] != '\\'
                ||| unit.len() == 2 && unit[0] == '\\'
            },
    ensures
        ({
            let open = s + seq!['"'] + text::join(units, Seq::empty());
            &&& mode_after(open) is Quoted
            &&& mode_after(open.push('\\')) is Escaped
            &&& mode_after(open.push('"')) is Code
            &&& level(f, open) == level(f, s)
            &&& level(f, open.push('\\')) == level(f, s)
            &&& level(f, open.push('"')) == level(f, s)
        }),
    decreases units.len(),
{
    let nothing = Seq::<char>::empty();
    let inner = text::join(units, nothing);
    let open = s + seq!['"'] + inner;
    if units.len() == 0 {
        assert(open == s.push('"'));
        assert(open.drop_last() == s);
    } else {
        let before = units.drop_last();
        let unit = units[units.len() - 1];
        let prior = s + seq!['"'] + text::join(before, nothing);
        law_scan_string(f, s, before);
        assert(inner == text::join(before, nothing) + unit);
        assert(open == prior + unit);
        if unit.len() == 1 {
            assert(open.drop_last() == prior);
            assert(open.last() == unit[0]);
            assert(level(f, open) == level(f, prior));
        } else {
            assert(open.drop_last() == prior.push('\\'));
            assert(level(f, open) == level(f, prior.push('\\')));
        }
        assert(mode_after(open) is Quoted);
    }
    assert(open.push('\\').drop_last() == open);
    assert(open.push('"').drop_last() == open);
    assert(level(f, open.push('\\')) == level(f, open));
    assert(level(f, open.push('"')) == level(f, open));
}

/// Text is cut at a comma outside strings and brackets: on both sides of it the pieces are
/// those of the text there.
pub proof fn law_split_at_comma(a: Seq<char>, b: Seq<char>)
    requires
        mode_after(a) is Code,
        level(Fence::Bracket, a) == 0,
    ensures
        split(Cut::Argument, a.push(',') + b) == split(Cut::Argument, a) + split(Cut::Argument, b),
{
    let lead = a.push(',');
    law_scan_code(Fence::Bracket, a, ',');
    assert forall|i: int| 0 <= i < b.len() implies #[trigger] cuts(
        Cut::Argument,
        lead + b.take(i),
        b[i],
    ) == cuts(Cut::Argument, b.take(i), b[i]) by {
        lemma_mode_concat(lead, b.take(i));
        lemma_level_concat(Fence::Bracket, lead, b.take(i));
    }
    lemma_split_concat(Cut::Argument, a, ',', b);
}

/// Text is cut at every line feed: on both sides of it the pieces are those of the text there.
pub proof fn law_split_at_line_feed(a: Seq<char>, b: Seq<char>)
    ensures
        split(Cut::Line, a.push('\n') + b) == split(Cut::Line, a) + split(Cut::Line, b),
{
    lemma_split_concat(Cut::Line, a, '\n', b);
}

proof fn lemma_split_concat(k: Cut, a: Seq<char>, c: char, b: Seq<char>)
    requires
        cuts(k, a, c),
        forall|i: int|
            0 <= i < b.len() ==> #[trigger] cuts(k, a.push(c) + b.take(i), b[i]) == cuts(
                k,
                b.take(i),
                b[i],
            ),
    ensures
        split(k, a.push(c) + b) == split(k, a) + split(k, b),
    decreases b.len(),
{
    let s = a.push(c) + b;
    if b.len() == 0 {
        assert(s == a.push(c));
        assert(s.drop_last() == a);
        assert(split(k, a).push(Seq::empty()) == split(k, a) + split(k, b));
    } else {
        let short = b.drop_last();
        assert forall|i: int| 0 <= i < short.len() implies #[trigger] cuts(
            k,
            a.push(c) + short.take(i),
            short[i],
        ) == cuts(k, short.take(i), short[i]) by {
            assert(short.take(i) == b.take(i));
            assert(cuts(k, a.push(c) + b.take(i), b[i]) == cuts(k, b.take(i), b[i]));
        }
        lemma_split_concat(k, a, c, short);
        law_split_join(k, short);
        assert(s.drop_last() == a.push(c) + short);
        assert(b.take(b.len() - 1) == short);
        assert(cuts(k, a.push(c) + b.take(b.len() - 1), b[b.len() - 1]) == cuts(
            k,
            short,
            b.last(),
        ));
        let prior = split(k, a) + split(k, short);
        assert(prior.last() == split(k, short).last());
        assert(prior.drop_last() == split(k, a) + split(k, short).drop_last());
        assert(split(k, s) == split(k, a) + split(k, b));
    }
}

/// Text whose commas are all inside strings or brackets is one piece, and so is, at line feeds,
/// text on one line.
pub proof fn law_split_whole(s: Seq<char>)
    ensures
        (forall|i: int|
            0 <= i < s.len() && s[i] == ',' ==> mode_after(#[trigger] s.take(i)) !is Code || level(
                Fence::Bracket,
                s.take(i),
            ) != 0) ==> split(Cut::Argument, s) == seq![s],
        (forall|i: int| 0 <= i < s.len() ==> s[i] != '\n') ==> split(Cut::Line, s) == seq![s],
{
    if forall|i: int|
        0 <= i < s.len() && s[i] == ',' ==> mode_after(#[trigger] s.take(i)) !is Code || level(
            Fence::Bracket,
            s.take(i),
        ) != 0 {
        lemma_split_uncut(Cut::Argument, s);
    }
    if forall|i: int| 0 <= i < s.len() ==> s[i] != '\n' {
        lemma_split_uncut(Cut::Line, s);
    }
}

/// The calls of two bodies with a line feed between them are those of the one and those of the
/// other.
pub proof fn law_call_lines_concat(a: Seq<char>, b: Seq<char>)
    ensures
        call_lines(a.push('\n') + b) == call_lines(a) + call_lines(b),
{
    law_split_at_line_feed(a, b);
    lemma_trimmed_lines_concat(split(Cut::Line, a), split(Cut::Line, b));
}

proof fn lemma_trimmed_lines_concat(a: Seq<Seq<char>>, b: Seq<Seq<char>>)
    ensures
        trimmed_lines(a + b) == trimmed_lines(a) + trimmed_lines(b),
    decreases b.len(),
{
    if b.len() == 0 {
        assert(a + b == a);
    } else {
        assert((a + b).drop_last() == a + b.drop_last());
        lemma_trimmed_lines_concat(a, b.drop_last());
    }
}

/// A line is one call, without the white space around it, and no call if it is blank.
pub proof fn law_call_line(before: Seq<char>, call: Seq<char>, after: Seq<char>)
    requires
        forall|i: int|
            0 <= i < before.len() ==> text::is_space(#[trigger] before[i]) && before[i] != '\n',
        forall|i: int|
            0 <= i < after.len() ==> text::is_space(#[trigger] after[i]) && after[i] != '\n',
        call.len() > 0 ==> !text::is_space(call[0]) && !text::is_space(call[call.len() - 1]),
        forall|i: int| 0 <= i < call.len() ==> call[i] != '\n',
    ensures
        call_lines(before + call + after) == if call.len() == 0 {
            Seq::empty()
        } else {
            seq![call]
        },
{
    let s = before + call + after;
    assert forall|i: int| 0 <= i < s.len() implies s[i] != '\n' by {
        if i < before.len() {
            assert(s[i] == before[i]);
        } else if i < before.len() + call.len() {
            assert(s[i] == call[i - before.len()]);
        } else {
            assert(s[i] == after[i - before.len() - call.len()]);
        }
    }
    law_split_whole(s);
    text::law_trims_around(before, call, after);
    reveal_with_fuel(trimmed_lines, 2);
}

/// The parenthesis that opens a text is closed by the first closing one outside strings at
/// which as many were closed as opened; it stays open only where there is none.
pub proof fn law_closing_first(s: Seq<char>)
    ensures
        match closing(s) {
            Some(k) => {
                &&& 0 <= k < s.len()
                &&& s[k] == ')'
                &&& mode_after(s.take(k)) is Code
                &&& level(Fence::Paren, s.take(k)) == 1
                &&& forall|j: int|
                    0 <= j < k && s[j] == ')' && mode_after(#[trigger] s.take(j)) is Code ==> level(
                        Fence::Paren,
                        s.take(j),
                    ) != 1
            },
            None => forall|j: int|
                0 <= j < s.len() && s[j] == ')' && mode_after(#[trigger] s.take(j)) is Code
                    ==> level(Fence::Paren, s.take(j)) != 1,
        },
{
    assert forall|j: int| 0 <= j < s.len() implies closes_at(s, j) == (s[j] == ')' && mode_after(
        #[trigger] s.take(j),
    ) is Code && level(Fence::Paren, s.take(j)) == 1) by {
        assert(s.take(j + 1).drop_last() == s.take(j));
    }
    lemma_closing_from(s, 0);
}

proof fn lemma_closing_from(s: Seq<char>, i: int)
    requires
        0 <= i,
    ensures
        match closing_from(s, i) {
            Some(k) => {
                &&& i <= k < s.len()
                &&& closes_at(s, k)
                &&& forall|j: int| i <= j < k ==> !closes_at(s, j)
            },
            None => forall|j: int| i <= j < s.len() ==> !closes_at(s, j),
        },
    decreases s.len() - i,
{
    if i < s.len() && !closes_at(s, i) {
        lemma_closing_from(s, i + 1);
    }
}

/// Text in which strings and parentheses are closed, put in parentheses, is closed by the last
/// of these, whatever follows.
#[verifier::spinoff_prover]
pub proof fn law_closed_by(list: Seq<char>, rest: Seq<char>)
    requires
        mode_after(list) is Code,
        level(Fence::Paren, list) == 0,
        forall|i: int| 0 <= i < list.len() ==> level(Fence::Paren, #[trigger] list.take(i)) >= 0,
    ensures
        closing(seq!['('] + list + seq![')'] + rest) == Some(list.len() as int + 1),
{
    let lead = seq!['('];
    let s = lead + list + seq![')'] + rest;
    let close = list.len() as int + 1;
    let nothing = Seq::<char>::empty();
    law_scan_code(Fence::Paren, nothing, '(');
    assert(nothing.push('(') == lead);
    assert forall|j: int| 0 <= j < close && s[j] == ')' && mode_after(#[trigger] s.take(j)) is Code implies level(
        Fence::Paren,
        s.take(j),
    ) != 1 by {
        if j == 0 {
            assert(s[0] == '(');
        } else {
            assert(s.take(j) == lead + list.take(j - 1));
            lemma_level_concat(Fence::Paren, lead, list.take(j - 1));
            lemma_mode_concat(lead, list.take(j - 1));
            let upto = list.take(j);
            assert(upto.drop_last() == list.take(j - 1));
            assert(upto.last() == s[j]);
            if j < list.len() {
                assert(level(Fence::Paren, list.take(j)) >= 0);
            } else {
                assert(list.take(j) == list);
            }
        }
    }
    assert(s.take(close) == lead + list);
    lemma_mode_concat(lead, list);
    lemma_level_concat(Fence::Paren, lead, list);
    law_closing_first(s);
}

} // verus!
