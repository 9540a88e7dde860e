//! The call syntax `name(key=value, ...)`, with argument values as plain text.

use crate::scan;
use crate::scan::{Cut, Fence};
use crate::text;
use vstd::prelude::*;
use vstd::string::*;

verus! {

/// A key with the text of its value.
pub type Argument = (Seq<char>, Seq<char>);

/// The views of a sequence of key and value strings.
pub open spec fn pairs(list: Seq<(String, String)>) -> Seq<Argument> {
    Seq::new(list.len(), |i: int| (list[i].0@, list[i].1@))
}

/// The arguments that the pieces of an argument list hold. A blank piece holds none; a piece
/// without an equals sign makes the list unreadable.
pub open spec fn arguments_of(pieces: Seq<Seq<char>>) -> Option<Seq<Argument>>
    decreases pieces.len(),
{
    if pieces.len() == 0 {
        Some(Seq::empty())
    } else {
        let piece = text::trimmed(pieces.last());
        match arguments_of(pieces.drop_last()) {
            None => None,
            Some(done) => if piece.len() == 0 {
                Some(done)
            } else {
                match text::find_char(piece, '=') {
                    None => None,
                    Some(eq) => Some(
                        done.push(
                            (text::trimmed(piece.take(eq)), text::trimmed(piece.skip(eq + 1))),
                        ),
                    ),
                }
            },
        }
    }
}

/// The name and the arguments of a call. The name is what stands before the first opening
/// parenthesis; the argument list reaches to where that parenthesis is closed, and is cut at
/// its top-level commas.
pub open spec fn call_parts(call: Seq<char>) -> Option<(Seq<char>, Seq<Argument>)> {
    match text::find_char(call, '(') {
        None => None,
        Some(open) => {
            let rest = call.skip(open);
            match scan::closing(rest) {
                None => None,
                Some(close) => match arguments_of(
                    scan::split(Cut::Argument, rest.subrange(1, close)),
                ) {
                    None => None,
                    Some(args) => Some((text::trimmed(call.take(open)), args)),
                },
            }
        },
    }
}

/// A list of arguments that cannot be read stays so when it grows.
proof fn lemma_unreadable(pieces: Seq<Seq<char>>, n: int)
    requires
        0 <= n <= pieces.len(),
        arguments_of(pieces.take(n)) is None,
    ensures
        arguments_of(pieces) is None,
    decreases pieces.len(),
{
    if n < pieces.len() {
        assert(pieces.drop_last().take(n) == pieces.take(n));
        lemma_unreadable(pieces.drop_last(), n);
    } else {
        assert(pieces.take(n) == pieces);
    }
}

/// Reads the pieces of an argument list.
fn read_arguments(pieces: &Vec<&str>) -> (r: Option<Vec<(String, String)>>)
    ensures
        match r {
            Some(args) => arguments_of(text::slices(pieces@)) == Some(pairs(args@)),
            None => arguments_of(text::slices(pieces@)) is None,
        },
{
    let n: usize = pieces.len();
    let mut args: Vec<(String, String)> = Vec::new();
    let mut i: usize = 0;
    let ghost all = text::slices(pieces@);
    assert(pairs(args@) == Seq::<Argument>::empty());
    while i < n
        invariant
            i <= n,
            n == pieces@.len(),
            all == text::slices(pieces@),
            arguments_of(all.take(i as int)) == Some(pairs(args@)),
        decreases n - i,
    {
        proof {
            assert(all.take(i + 1).drop_last() == all.take(i as int));
            assert(all.take(i + 1).last() == pieces@[i as int]@);
        }
        let piece = text::trim(pieces[i]);
        let ghost done = args@;
        if !piece.is_empty() {
            let chars = text::chars_of(piece);
            match text::position_of_char(&chars, '=') {
                None => {
                    proof {
                        lemma_unreadable(all, i + 1);
                    }
                    return None;
                },
                Some(eq) => {
                    let len: usize = chars.len();
                    let key = text::trim(piece.substring_char(0, eq)).to_owned();
                    let value = text::trim(piece.substring_char(eq + 1, len)).to_owned();
                    args.push((key, value));
                    assert(pairs(args@) == pairs(done).push((key@, value@)));
                    assert(piece@.skip(eq + 1) == piece@.subrange(eq + 1, len as int));
                },
            }
        }
        i += 1;
    }
    assert(all.take(n as int) == all);
    Some(args)
}

/// Splits one `name(key=value, ...)` call into its name and its arguments.
///
/// Values are JSON text and may hold literal `(`, `)` and `,` inside quoted strings, so the
/// argument list is scanned with an eye on strings and nesting.
pub fn split_call(call: &str) -> (r: Option<(String, Vec<(String, String)>)>)
    ensures
        match r {
            Some((name, args)) => call_parts(call@) == Some((name@, pairs(args@))),
            None => call_parts(call@) is None,
        },
{
    let chars = text::chars_of(call);
    let open: usize = match text::position_of_char(&chars, '(') {
        Some(open) => open,
        None => return None,
    };
    let rest = call.substring_char(open, chars.len());
    assert(rest@ == call@.skip(open as int));
    let rest_chars = text::chars_of(rest);
    let close: usize = match scan::closing_position(&rest_chars) {
        Some(close) => close,
        None => return None,
    };
    assert(close > 0) by {
        assert(!scan::closes_at(rest@, 0));
    }
    let pieces = scan::split_top_level_commas(rest.substring_char(1, close));
    match read_arguments(&pieces) {
        None => None,
        Some(args) => Some((text::trim(call.substring_char(0, open)).to_owned(), args)),
    }
}

/// One argument as it is written: `key=value`.
pub open spec fn argument_text(arg: Argument) -> Seq<char> {
    arg.0 + seq!['='] + arg.1
}

/// The arguments as they are written, one by one.
pub open spec fn argument_texts(args: Seq<Argument>) -> Seq<Seq<char>> {
    Seq::new(args.len(), |i: int| argument_text(args[i]))
}

/// A call as it is written: `name(key1=value1, key2=value2, ...)`.
pub open spec fn call_text(name: Seq<char>, args: Seq<Argument>) -> Seq<char> {
    name + seq!['('] + text::join(argument_texts(args), seq![',', ' ']) + seq![')']
}

/// Writes the call `name(key1=value1, key2=value2, ...)`.
pub fn write_call(name: &str, args: &Vec<(String, String)>) -> (r: String)
    ensures
        r@ == call_text(name@, pairs(args@)),
{
    proof {
        reveal_strlit("=");
        reveal_strlit(", ");
        reveal_strlit("(");
        reveal_strlit(")");
        assert("="@ == seq!['=']);
        assert(", "@ == seq![',', ' ']);
        assert("("@ == seq!['(']);
        assert(")"@ == seq![')']);
    }
    let n: usize = args.len();
    let mut parts: Vec<String> = Vec::new();
    let mut i: usize = 0;
    while i < n
        invariant
            i <= n,
            n == args@.len(),
            "="@ == seq!['='],
            text::texts(parts@) == argument_texts(pairs(args@)).take(i as int),
        decreases n - i,
    {
        let mut part = args[i].0.clone();
        part.append("=");
        part.append(args[i].1.as_str());
        let ghost done = parts@;
        parts.push(part);
        assert(text::texts(parts@) == text::texts(done).push(part@));
        i += 1;
    }
    assert(argument_texts(pairs(args@)).take(n as int) == argument_texts(pairs(args@)));
    let mut out = name.to_owned();
    out.append("(");
    out.append(text::join_strings(parts.as_slice(), ", ").as_str());
    out.append(")");
    out
}

/// A name that a written call gives back: without an opening parenthesis, and without white
/// space at its ends.
pub open spec fn plain_name(name: Seq<char>) -> bool {
    &&& text::is_trimmed(name)
    &&& forall|i: int| 0 <= i < name.len() ==> name[i] != '('
}

/// A key that a written call gives back: without an equals sign, without white space at its
/// ends, and tidy.
pub open spec fn plain_key(key: Seq<char>) -> bool {
    &&& text::is_trimmed(key)
    &&& forall|i: int| 0 <= i < key.len() ==> key[i] != '='
    &&& scan::tidy(key)
}

/// Text of letters, digits and underscores, which does not begin with a digit.
pub open spec fn is_identifier(s: Seq<char>) -> bool {
    &&& s.len() > 0
    &&& !('0' <= s[0] <= '9')
    &&& forall|i: int|
        0 <= i < s.len() ==> 'a' <= #[trigger] s[i] <= 'z' || 'A' <= s[i] <= 'Z' || '0' <= s[i]
            <= '9' || s[i] == '_'
}

/// A written call gives back every key that is an identifier, and it stays on its line.
pub proof fn law_identifier_plain(key: Seq<char>)
    requires
        is_identifier(key),
    ensures
        plain_key(key),
        scan::one_line(key),
{
    scan::lemma_inert_tidy(key);
}

/// An argument that a written call gives back.
pub open spec fn plain_argument(arg: Argument) -> bool {
    &&& plain_key(arg.0)
    &&& scan::standalone(arg.1)
}

/// The pieces that the argument list of a written call is cut into.
spec fn written_pieces(args: Seq<Argument>) -> Seq<Seq<char>> {
    Seq::new(
        args.len(),
        |i: int|
            if i == 0 {
                argument_text(args[i])
            } else {
                seq![' '] + argument_text(args[i])
            },
    )
}

/// A written argument is tidy and has no white space at its ends.
proof fn lemma_argument_tidy(arg: Argument)
    requires
        plain_argument(arg),
    ensures
        scan::tidy(argument_text(arg)),
        scan::tidy(seq![' '] + argument_text(arg)),
        text::is_trimmed(argument_text(arg)),
        text::find_char(argument_text(arg), '=') == Some(arg.0.len() as int),
        argument_text(arg).take(arg.0.len() as int) == arg.0,
        argument_text(arg).skip(arg.0.len() as int + 1) == arg.1,
{
    let s = argument_text(arg);
    let head = arg.0 + seq!['='];
    scan::lemma_inert_tidy(seq!['=']);
    scan::lemma_tidy_concat(arg.0, seq!['=']);
    scan::lemma_tidy_concat(head, arg.1);
    scan::lemma_inert_tidy(seq![' ']);
    scan::lemma_tidy_concat(seq![' '], s);
    text::lemma_find_char_is(s, '=', arg.0.len() as int);
    assert(s.take(arg.0.len() as int) == arg.0);
    assert(s.skip(arg.0.len() as int + 1) == arg.1);
    assert(!text::is_space('='));
}

/// A written argument list is its last argument behind the list of the others.
proof fn lemma_list_step(args: Seq<Argument>)
    requires
        args.len() > 1,
    ensures
        text::join(argument_texts(args), seq![',', ' ']) == text::join(
            argument_texts(args.drop_last()),
            seq![',', ' '],
        ).push(',') + (seq![' '] + argument_text(args.last())),
        written_pieces(args) == written_pieces(args.drop_last()).push(
            seq![' '] + argument_text(args.last()),
        ),
{
    let before = args.drop_last();
    let arg = args.last();
    let a = text::join(argument_texts(before), seq![',', ' ']);
    let b = seq![' '] + argument_text(arg);
    assert(argument_texts(args).drop_last() == argument_texts(before));
    assert(argument_texts(args).last() == argument_text(arg));
    assert(a + seq![',', ' '] + argument_text(arg) == a.push(',') + b);
    assert(written_pieces(args) == written_pieces(before).push(b));
}

/// The argument list of a written call is balanced, and is cut between the arguments.
#[verifier::spinoff_prover]
proof fn lemma_written_list(args: Seq<Argument>)
    requires
        forall|i: int| 0 <= i < args.len() ==> plain_argument(args[i]),
    ensures
        scan::balanced(text::join(argument_texts(args), seq![',', ' '])),
        args.len() > 0 ==> scan::split(
            Cut::Argument,
            text::join(argument_texts(args), seq![',', ' ']),
        ) == written_pieces(args),
    decreases args.len(),
{
    let list = text::join(argument_texts(args), seq![',', ' ']);
    if args.len() == 1 {
        lemma_argument_tidy(args[0]);
        assert(list == argument_text(args[0]));
        scan::lemma_split_uncut(Cut::Argument, list);
        assert(seq![list] == written_pieces(args));
    } else if args.len() > 1 {
        let before = args.drop_last();
        lemma_written_list(before);
        lemma_argument_tidy(args.last());
        lemma_list_step(args);
        scan::lemma_add_piece(
            text::join(argument_texts(before), seq![',', ' ']),
            seq![' '] + argument_text(args.last()),
        );
    }
}

/// The pieces of a written argument list hold the arguments.
proof fn lemma_written_arguments(args: Seq<Argument>)
    requires
        forall|i: int| 0 <= i < args.len() ==> plain_argument(args[i]),
    ensures
        arguments_of(written_pieces(args)) == Some(args),
    decreases args.len(),
{
    if args.len() == 0 {
        assert(args == Seq::<Argument>::empty());
    } else {
        let before = args.drop_last();
        let arg = args.last();
        let s = argument_text(arg);
        lemma_written_arguments(before);
        lemma_argument_tidy(arg);
        assert(written_pieces(args).drop_last() == written_pieces(before));
        text::law_trimmed(s);
        text::lemma_trimmed_space(s);
        text::law_trimmed(arg.0);
        text::law_trimmed(arg.1);
        assert(before.push(arg) == args);
    }
}

/// Reading a written argument list gives back the arguments.
proof fn lemma_list_read(args: Seq<Argument>)
    requires
        forall|i: int| 0 <= i < args.len() ==> plain_argument(args[i]),
    ensures
        arguments_of(
            scan::split(Cut::Argument, text::join(argument_texts(args), seq![',', ' '])),
        ) == Some(args),
{
    let list = text::join(argument_texts(args), seq![',', ' ']);
    if args.len() == 0 {
        assert(list == Seq::<char>::empty());
        assert(args == Seq::<Argument>::empty());
        assert(scan::split(Cut::Argument, list) == seq![Seq::<char>::empty()]);
        reveal_with_fuel(arguments_of, 2);
    } else {
        lemma_written_list(args);
        lemma_written_arguments(args);
    }
}

/// Reading a written call gives back its name and its arguments.
#[verifier::spinoff_prover]
pub proof fn law_write_then_split(name: Seq<char>, args: Seq<Argument>)
    requires
        plain_name(name),
        forall|i: int| 0 <= i < args.len() ==> plain_argument(args[i]),
    ensures
        call_parts(call_text(name, args)) == Some((name, args)),
{
    let list = text::join(argument_texts(args), seq![',', ' ']);
    let call = call_text(name, args);
    let open = name.len() as int;
    let rest = call.skip(open);
    text::lemma_find_char_is(call, '(', open);
    assert(call.take(open) == name);
    text::law_trimmed(name);
    assert(rest == seq!['('] + list + seq![')']);
    lemma_written_list(args);
    scan::lemma_enclosed(list);
    assert(rest.subrange(1, list.len() as int + 1) == list);
    lemma_list_read(args);
}

/// A written call is not empty, and has no white space at its ends if its name has none.
pub proof fn lemma_call_trimmed(name: Seq<char>, args: Seq<Argument>)
    requires
        text::is_trimmed(name),
    ensures
        call_text(name, args).len() > 0,
        text::is_trimmed(call_text(name, args)),
{
    assert(!text::is_space('(') && !text::is_space(')'));
}

/// A call whose name, keys and values hold no line feed is written on one line.
pub proof fn lemma_call_one_line(name: Seq<char>, args: Seq<Argument>)
    requires
        scan::one_line(name),
        forall|i: int|
            0 <= i < args.len() ==> scan::one_line((#[trigger] args[i]).0) && scan::one_line(args[i].1),
    ensures
        scan::one_line(call_text(name, args)),
{
    lemma_list_one_line(args);
}

proof fn lemma_list_one_line(args: Seq<Argument>)
    requires
        forall|i: int|
            0 <= i < args.len() ==> scan::one_line((#[trigger] args[i]).0) && scan::one_line(args[i].1),
    ensures
        scan::one_line(text::join(argument_texts(args), seq![',', ' '])),
    decreases args.len(),
{
    if args.len() > 0 {
        let before = args.drop_last();
        assert(argument_texts(args).drop_last() == argument_texts(before));
        assert(argument_texts(args).last() == argument_text(args.last()));
        lemma_list_one_line(before);
    }
}

/// The views of pairs of strings are those of each pair, in order.
pub proof fn law_pairs(list: Seq<(String, String)>)
    ensures
        pairs(list).len() == list.len(),
        forall|i: int|
            0 <= i < list.len() ==> #[trigger] pairs(list)[i] == (list[i].0@, list[i].1@),
{
}

/// The arguments of two lists of pieces in a row are those of the one and those of the other,
/// and cannot be read if either cannot.
pub proof fn law_arguments_concat(a: Seq<Seq<char>>, b: Seq<Seq<char>>)
    ensures
        arguments_of(Seq::<Seq<char>>::empty()) == Some(Seq::<Argument>::empty()),
        arguments_of(a + b) == match (arguments_of(a), arguments_of(b)) {
            (Some(x), Some(y)) => Some(x + y),
            _ => None,
        },
    decreases b.len(),
{
    if b.len() == 0 {
        assert(a + b == a);
        if let Some(x) = arguments_of(a) {
            assert(x + Seq::<Argument>::empty() == x);
        }
    } else {
        assert((a + b).drop_last() == a + b.drop_last());
        assert((a + b).last() == b.last());
        law_arguments_concat(a, b.drop_last());
        if let (Some(x), Some(y)) = (arguments_of(a), arguments_of(b.drop_last())) {
            if let Some(z) = arguments_of(b) {
                if z.len() > y.len() {
                    assert(z == y.push(z.last()));
                    assert((x + y).push(z.last()) == x + z);
                }
            }
        }
    }
}

/// A piece `key=value` is the argument with that key and that value, without the white space
/// around either. The key ends at the first equals sign.
#[verifier::spinoff_prover]
pub proof fn law_argument_read(
    a: Seq<char>,
    key: Seq<char>,
    b: Seq<char>,
    c: Seq<char>,
    value: Seq<char>,
    d: Seq<char>,
)
    requires
        forall|i: int| 0 <= i < a.len() ==> text::is_space(#[trigger] a[i]),
        forall|i: int| 0 <= i < b.len() ==> text::is_space(#[trigger] b[i]),
        forall|i: int| 0 <= i < c.len() ==> text::is_space(#[trigger] c[i]),
        forall|i: int| 0 <= i < d.len() ==> text::is_space(#[trigger] d[i]),
        key.len() > 0 ==> !text::is_space(key[0]) && !text::is_space(key[key.len() - 1]),
        value.len() > 0 ==> !text::is_space(value[0]) && !text::is_space(value[value.len() - 1]),
        forall|i: int| 0 <= i < key.len() ==> key[i] != '=',
    ensures
        arguments_of(seq![a + key + b + seq!['='] + c + value + d]) == Some(seq![(key, value)]),
{
    let piece = a + key + b + seq!['='] + c + value + d;
    let none = Seq::<char>::empty();
    let (lead, front) = if key.len() > 0 {
        (a, key + b)
    } else {
        (a + b, none)
    };
    let (back, trail) = if value.len() > 0 {
        (c + value, d)
    } else {
        (none, c + d)
    };
    let core = front + seq!['='] + back;
    let eq = front.len() as int;
    assert(!text::is_space('='));
    if key.len() == 0 {
        assert(key == none);
    }
    if value.len() == 0 {
        assert(value == none);
    }
    assert(piece == lead + core + trail);
    text::law_trims_around(lead, core, trail);
    assert forall|j: int| 0 <= j < eq implies core[j] != '=' by {
        if j < key.len() {
            assert(core[j] == key[j]);
        } else {
            assert(core[j] == b[j - key.len()]);
        }
    }
    text::lemma_find_char_is(core, '=', eq);
    assert(core.take(eq) == none + key + (front.skip(key.len() as int)));
    assert(core.skip(eq + 1) == back.take(back.len() - value.len()) + value + none);
    text::law_trims_around(none, key, front.skip(key.len() as int));
    text::law_trims_around(back.take(back.len() - value.len()), value, none);
    reveal_with_fuel(arguments_of, 2);
    assert(Seq::<Argument>::empty().push((key, value)) == seq![(key, value)]);
}

/// A blank piece is no argument, and a piece that is not blank and has no equals sign cannot be
/// read.
#[verifier::spinoff_prover]
pub proof fn law_argument_missing(piece: Seq<char>)
    requires
        forall|i: int| 0 <= i < piece.len() ==> piece[i] != '=',
    ensures
        arguments_of(seq![piece]) == if forall|i: int|
            0 <= i < piece.len() ==> text::is_space(#[trigger] piece[i]) {
            Some(Seq::<Argument>::empty())
        } else {
            None
        },
{
    let none = Seq::<char>::empty();
    reveal_with_fuel(arguments_of, 2);
    if forall|i: int| 0 <= i < piece.len() ==> text::is_space(#[trigger] piece[i]) {
        assert(piece + none + none == piece);
        text::law_trims_around(piece, none, none);
    } else {
        let at = choose|i: int| 0 <= i < piece.len() && !text::is_space(#[trigger] piece[i]);
        let core = text::trimmed(piece);
        text::lemma_trimmed_keeps_core(piece, at);
        let from = text::lemma_trimmed_part(piece);
        text::lemma_find_from(core, seq!['='], 0);
        if let Some(k) = text::find_char(core, '=') {
            assert(core.subrange(k, k + 1)[0] == '=');
            assert(core[k] == piece[from + k]);
        }
    }
}

/// A call `name(list)` has the name before the first opening parenthesis, without the white
/// space around it, and the arguments of the list up to where that parenthesis is closed. What
/// follows does not matter. It cannot be read only if the list cannot.
#[verifier::spinoff_prover]
pub proof fn law_call_read(
    a: Seq<char>,
    name: Seq<char>,
    b: Seq<char>,
    list: Seq<char>,
    rest: Seq<char>,
)
    requires
        forall|i: int| 0 <= i < a.len() ==> text::is_space(#[trigger] a[i]),
        forall|i: int| 0 <= i < b.len() ==> text::is_space(#[trigger] b[i]),
        name.len() > 0 ==> !text::is_space(name[0]) && !text::is_space(name[name.len() - 1]),
        forall|i: int| 0 <= i < name.len() ==> name[i] != '(',
        scan::mode_after(list) is Code,
        scan::level(Fence::Paren, list) == 0,
        forall|i: int|
            0 <= i < list.len() ==> scan::level(Fence::Paren, #[trigger] list.take(i)) >= 0,
    ensures
        call_parts(a + name + b + seq!['('] + list + seq![')'] + rest) == match arguments_of(
            scan::split(Cut::Argument, list),
        ) {
            Some(args) => Some((name, args)),
            None => None,
        },
{
    let head = a + name + b;
    let call = head + seq!['('] + list + seq![')'] + rest;
    let open = head.len() as int;
    assert(!text::is_space('('));
    assert forall|j: int| 0 <= j < open implies call[j] != '(' by {
        if j < a.len() {
            assert(call[j] == a[j]);
        } else if j < a.len() + name.len() {
            assert(call[j] == name[j - a.len()]);
        } else {
            assert(call[j] == b[j - a.len() - name.len()]);
        }
    }
    text::lemma_find_char_is(call, '(', open);
    assert(call.take(open) == head);
    assert(call.skip(open) == seq!['('] + list + seq![')'] + rest);
    scan::law_closed_by(list, rest);
    assert(call.skip(open).subrange(1, list.len() as int + 1) == list);
    text::law_trims_around(a, name, b);
}

/// Text without an opening parenthesis is no call, and neither is text whose first opening
/// parenthesis is not closed.
#[verifier::spinoff_prover]
pub proof fn law_call_missing(head: Seq<char>, list: Seq<char>)
    requires
        forall|i: int| 0 <= i < head.len() ==> head[i] != '(',
    ensures
        call_parts(head) is None,
        (forall|j: int|
            0 <= j < list.len() && list[j] == ')' && scan::mode_after(#[trigger] list.take(j))
                is Code ==> scan::level(Fence::Paren, list.take(j)) != 0) ==> call_parts(
            head + seq!['('] + list,
        ) is None,
{
    text::lemma_find_from(head, seq!['('], 0);
    if let Some(k) = text::find_char(head, '(') {
        assert(head.subrange(k, k + 1)[0] == '(');
    }
    let call = head + seq!['('] + list;
    let open = head.len() as int;
    text::lemma_find_char_is(call, '(', open);
    if forall|j: int|
        0 <= j < list.len() && list[j] == ')' && scan::mode_after(#[trigger] list.take(j)) is Code
            ==> scan::level(Fence::Paren, list.take(j)) != 0 {
        let lead = seq!['('];
        let s = lead + list;
        let none = Seq::<char>::empty();
        assert(call.skip(open) == s);
        scan::law_scan_code(Fence::Paren, none, '(');
        assert(none.push('(') == lead);
        scan::law_closing_first(s);
        if let Some(k) = scan::closing(s) {
            assert(s.take(k) == lead + list.take(k - 1));
            scan::lemma_mode_concat(lead, list.take(k - 1));
            scan::lemma_level_concat(Fence::Paren, lead, list.take(k - 1));
            assert(list[k - 1] == s[k]);
        }
    }
}

/// A written call without arguments ends in `()`, and each further argument `key=value` stands
/// before the closing parenthesis, after a comma and a space if it is not the first.
pub proof fn law_call_text_grows(name: Seq<char>, args: Seq<Argument>, arg: Argument)
    ensures
        call_text(name, Seq::<Argument>::empty()) == name + seq!['(', ')'],
        call_text(name, seq![arg]) == name + seq!['('] + arg.0 + seq!['='] + arg.1 + seq![')'],
        args.len() > 0 ==> call_text(name, args.push(arg)) == call_text(name, args).drop_last()
            + seq![',', ' '] + arg.0 + seq!['='] + arg.1 + seq![')'],
{
    let sep = seq![',', ' '];
    let t = argument_text(arg);
    text::law_join_single(t, sep);
    assert(argument_texts(Seq::<Argument>::empty()) == Seq::<Seq<char>>::empty());
    assert(argument_texts(seq![arg]) == seq![t]);
    assert(name + seq!['('] + Seq::<char>::empty() + seq![')'] == name + seq!['(', ')']);
    assert(name + seq!['('] + t + seq![')'] == name + seq!['('] + arg.0 + seq!['='] + arg.1 + seq![')']);
    if args.len() > 0 {
        let list = text::join(argument_texts(args), sep);
        assert(argument_texts(args.push(arg)) == argument_texts(args) + seq![t]);
        text::law_join_concat(argument_texts(args), seq![t], sep);
        assert(call_text(name, args).drop_last() == name + seq!['('] + list);
        assert(name + seq!['('] + (list + sep + t) + seq![')'] == name + seq!['('] + list + sep
            + arg.0 + seq!['='] + arg.1 + seq![')']);
    }
}

} // verus!
