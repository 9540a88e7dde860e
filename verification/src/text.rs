//! Text as a sequence of characters: trimming, searching and joining.

use vstd::prelude::*;
use vstd::string::*;

verus! {

/// The views of a sequence of owned strings.
pub open spec fn texts(list: Seq<String>) -> Seq<Seq<char>> {
    Seq::new(list.len(), |i: int| list[i]@)
}

/// The views of a sequence of string slices.
pub open spec fn slices(list: Seq<&str>) -> Seq<Seq<char>> {
    Seq::new(list.len(), |i: int| list[i]@)
}

/// Whether `c` has the Unicode property `White_Space`.
pub open spec fn is_space(c: char) -> bool {
    let u = c as u32;
    ||| 0x09 <= u <= 0x0d
    ||| u == 0x20
    ||| u == 0x85
    ||| u == 0xa0
    ||| u == 0x1680
    ||| 0x2000 <= u <= 0x200a
    ||| u == 0x2028
    ||| u == 0x2029
    ||| u == 0x202f
    ||| u == 0x205f
    ||| u == 0x3000
}

/// Tells white space from other characters.
pub fn is_white_space(c: char) -> (b: bool)
    ensures
        b == is_space(c),
{
    let u: u32 = c as u32;
    (0x09 <= u && u <= 0x0d) || u == 0x20 || u == 0x85 || u == 0xa0 || u == 0x1680 || (0x2000 <= u
        && u <= 0x200a) || u == 0x2028 || u == 0x2029 || u == 0x202f || u == 0x205f || u == 0x3000
}

/// `s` without its leading white space.
pub open spec fn trim_start(s: Seq<char>) -> Seq<char>
    decreases s.len(),
{
    if s.len() > 0 && is_space(s[0]) {
        trim_start(s.drop_first())
    } else {
        s
    }
}

/// `s` without its trailing white space.
pub open spec fn trim_end(s: Seq<char>) -> Seq<char>
    decreases s.len(),
{
    if s.len() > 0 && is_space(s.last()) {
        trim_end(s.drop_last())
    } else {
        s
    }
}

/// `s` without the white space around it.
pub open spec fn trimmed(s: Seq<char>) -> Seq<char> {
    trim_end(trim_start(s))
}

/// Text with no white space at either end.
pub open spec fn is_trimmed(s: Seq<char>) -> bool {
    s.len() > 0 ==> !is_space(s[0]) && !is_space(s.last())
}

/// Trimming leaves no white space at either end, and keeps text that has none there as it is.
pub proof fn law_trimmed(s: Seq<char>)
    ensures
        is_trimmed(trimmed(s)),
        is_trimmed(s) ==> trimmed(s) == s,
        trimmed(trimmed(s)) == trimmed(s),
    decreases s.len(),
{
    if s.len() > 0 && is_space(s[0]) {
        law_trimmed(s.drop_first());
    } else {
        lemma_trim_end(s);
    }
}

proof fn lemma_trim_end(s: Seq<char>)
    requires
        s.len() > 0 ==> !is_space(s[0]),
    ensures
        is_trimmed(trim_end(s)),
        trim_start(trim_end(s)) == trim_end(s),
        trim_end(trim_end(s)) == trim_end(s),
    decreases s.len(),
{
    if s.len() > 0 && is_space(s.last()) {
        lemma_trim_end(s.drop_last());
    }
}

/// What trimming keeps is a stretch of the text.
pub proof fn lemma_trimmed_part(s: Seq<char>) -> (from: int)
    ensures
        0 <= from,
        from + trimmed(s).len() <= s.len(),
        trimmed(s) == s.subrange(from, from + trimmed(s).len()),
    decreases s.len(),
{
    if s.len() > 0 && is_space(s[0]) {
        let from = lemma_trimmed_part(s.drop_first());
        assert(s.drop_first().subrange(from, from + trimmed(s).len()) == s.subrange(
            from + 1,
            from + 1 + trimmed(s).len(),
        ));
        from + 1
    } else {
        lemma_trim_end_part(s);
        0
    }
}

proof fn lemma_trim_end_part(s: Seq<char>)
    ensures
        trim_end(s).len() <= s.len(),
        trim_end(s) == s.take(trim_end(s).len() as int),
    decreases s.len(),
{
    if s.len() > 0 && is_space(s.last()) {
        lemma_trim_end_part(s.drop_last());
    }
}

/// Trimming text that begins with a trimmed part keeps that part, and only shortens the rest.
pub proof fn lemma_trimmed_keeps(part: Seq<char>, tail: Seq<char>) -> (n: int)
    requires
        part.len() > 0,
        is_trimmed(part),
    ensures
        0 <= n <= tail.len(),
        trimmed(part + tail) == part + tail.take(n),
    decreases tail.len(),
{
    let s = part + tail;
    assert(s[0] == part[0]);
    if tail.len() == 0 {
        assert(s == part);
        law_trimmed(part);
        assert(part + tail.take(0) == part);
        0
    } else if is_space(tail.last()) {
        let shorter = tail.drop_last();
        assert(s.drop_last() == part + shorter);
        assert((part + shorter)[0] == part[0]);
        let n = lemma_trimmed_keeps(part, shorter);
        assert(shorter.take(n) == tail.take(n));
        n
    } else {
        assert(tail.take(tail.len() as int) == tail);
        tail.len() as int
    }
}

/// One space in front of text without white space at its ends is trimmed away.
pub proof fn lemma_trimmed_space(s: Seq<char>)
    requires
        is_trimmed(s),
    ensures
        trimmed(seq![' '] + s) == s,
{
    let padded = seq![' '] + s;
    assert(padded.drop_first() == s);
    law_trimmed(s);
}

/// The characters of `s`, one by one.
pub fn chars_of(s: &str) -> (v: Vec<char>)
    ensures
        v@ == s@,
{
    let mut v: Vec<char> = Vec::new();
    for c in it: s.chars()
        invariant
            it.seq() == s@,
            v@ == s@.take(it.index()),
    {
        v.push(c);
    }
    v
}

/// Strips the white space around `s`.
pub fn trim<'a>(s: &'a str) -> (r: &'a str)
    ensures
        r@ == trimmed(s@),
{
    let chars = chars_of(s);
    let n: usize = chars.len();
    let mut lo: usize = 0;
    assert(s@.skip(0) == s@);
    while lo < n && is_white_space(chars[lo])
        invariant
            lo <= n,
            n == chars@.len(),
            chars@ == s@,
            trim_start(s@) == trim_start(s@.skip(lo as int)),
        decreases n - lo,
    {
        assert(s@.skip(lo as int).drop_first() == s@.skip(lo + 1));
        lo += 1;
    }
    assert(trim_start(s@) == s@.skip(lo as int));
    let mut hi: usize = n;
    while hi > lo && is_white_space(chars[hi - 1])
        invariant
            lo <= hi <= n,
            n == chars@.len(),
            chars@ == s@,
            trimmed(s@) == trim_end(s@.subrange(lo as int, hi as int)),
        decreases hi,
    {
        assert(s@.subrange(lo as int, hi as int).drop_last() == s@.subrange(lo as int, hi - 1));
        hi -= 1;
    }
    s.substring_char(lo, hi)
}

/// Whether `needle` stands in `hay` at position `i`.
pub open spec fn occurs_at(hay: Seq<char>, needle: Seq<char>, i: int) -> bool {
    &&& 0 <= i
    &&& i + needle.len() <= hay.len()
    &&& hay.subrange(i, i + needle.len()) == needle
}

/// The first position of `needle` in `hay` that is not before `i`.
pub open spec fn find_from(hay: Seq<char>, needle: Seq<char>, i: int) -> Option<int>
    decreases hay.len() + 1 - i,
{
    if i < 0 || i > hay.len() {
        None
    } else if occurs_at(hay, needle, i) {
        Some(i)
    } else {
        find_from(hay, needle, i + 1)
    }
}

/// The first position of `needle` in `hay`.
pub open spec fn find_text(hay: Seq<char>, needle: Seq<char>) -> Option<int> {
    find_from(hay, needle, 0)
}

/// The first position of the character `c` in `s`.
pub open spec fn find_char(s: Seq<char>, c: char) -> Option<int> {
    find_text(s, seq![c])
}

/// What [`find_from`] gives is the least position at which the needle occurs, and it gives
/// nothing exactly when there is none.
pub proof fn lemma_find_from(hay: Seq<char>, needle: Seq<char>, i: int)
    requires
        0 <= i,
    ensures
        match find_from(hay, needle, i) {
            Some(k) => {
                &&& i <= k
                &&& occurs_at(hay, needle, k)
                &&& forall|j: int| i <= j < k ==> !occurs_at(hay, needle, j)
            },
            None => forall|j: int| i <= j ==> !occurs_at(hay, needle, j),
        },
    decreases hay.len() + 1 - i,
{
    if i <= hay.len() && !occurs_at(hay, needle, i) {
        lemma_find_from(hay, needle, i + 1);
    }
}

/// A position at which the needle occurs, and before which it does not, is the one found.
pub proof fn lemma_find_text_is(hay: Seq<char>, needle: Seq<char>, k: int)
    requires
        occurs_at(hay, needle, k),
        forall|j: int| 0 <= j < k ==> !occurs_at(hay, needle, j),
    ensures
        find_text(hay, needle) == Some(k),
{
    lemma_find_from(hay, needle, 0);
}

/// A character is found where it stands first.
pub proof fn lemma_find_char_is(s: Seq<char>, c: char, k: int)
    requires
        0 <= k < s.len(),
        s[k] == c,
        forall|j: int| 0 <= j < k ==> s[j] != c,
    ensures
        find_char(s, c) == Some(k),
{
    assert(s.subrange(k, k + 1) == seq![c]);
    assert forall|j: int| 0 <= j < k implies !occurs_at(s, seq![c], j) by {
        if occurs_at(s, seq![c], j) {
            assert(s.subrange(j, j + 1)[0] == c);
        }
    }
    lemma_find_text_is(s, seq![c], k);
}

/// What is found in a text is found at the same place when the text goes on.
pub proof fn lemma_find_text_grows(hay: Seq<char>, more: Seq<char>, needle: Seq<char>)
    requires
        find_text(hay, needle) is Some,
    ensures
        find_text(hay + more, needle) == find_text(hay, needle),
{
    lemma_find_from(hay, needle, 0);
    let k = find_text(hay, needle).unwrap();
    let all = hay + more;
    assert(all.subrange(k, k + needle.len()) == hay.subrange(k, k + needle.len()));
    assert forall|j: int| 0 <= j < k implies !occurs_at(all, needle, j) by {
        if occurs_at(all, needle, j) {
            assert(all.subrange(j, j + needle.len()) == hay.subrange(j, j + needle.len()));
            assert(occurs_at(hay, needle, j));
        }
    }
    lemma_find_text_is(all, needle, k);
}

/// Dropping text before the first occurrence moves it, and nothing else.
pub proof fn lemma_find_text_drops(dropped: Seq<char>, kept: Seq<char>, needle: Seq<char>)
    requires
        find_text(dropped + kept, needle) matches Some(k) ==> dropped.len() <= k,
    ensures
        match find_text(dropped + kept, needle) {
            Some(k) => find_text(kept, needle) == Some(k - dropped.len()),
            None => find_text(kept, needle) is None,
        },
{
    let all = dropped + kept;
    let d = dropped.len() as int;
    lemma_find_from(all, needle, 0);
    lemma_find_from(kept, needle, 0);
    assert forall|j: int| 0 <= j && occurs_at(kept, needle, j) implies occurs_at(all, needle, j + d) by {
        assert(all.subrange(j + d, j + d + needle.len()) == kept.subrange(j, j + needle.len()));
    }
    if let Some(k) = find_text(all, needle) {
        assert(kept.subrange(k - d, k - d + needle.len()) == all.subrange(k, k + needle.len()));
        assert forall|j: int| 0 <= j < k - d implies !occurs_at(kept, needle, j) by {
            assert(!occurs_at(all, needle, j + d));
        }
        lemma_find_text_is(kept, needle, k - d);
    } else if let Some(j) = find_text(kept, needle) {
        assert(occurs_at(all, needle, j + d));
    }
}

/// A tag whose first character occurs in it only once is found right after text without it.
pub proof fn lemma_find_tag(before: Seq<char>, tag: Seq<char>, after: Seq<char>)
    requires
        tag.len() > 0,
        forall|i: int| 0 < i < tag.len() ==> #[trigger] tag[i] != tag[0],
        find_text(before, tag) is None,
    ensures
        find_text(before + tag + after, tag) == Some(before.len() as int),
{
    let all = before + tag + after;
    let n = before.len() as int;
    lemma_find_from(before, tag, 0);
    assert(all.subrange(n, n + tag.len()) == tag);
    assert forall|j: int| 0 <= j < n implies !occurs_at(all, tag, j) by {
        if occurs_at(all, tag, j) {
            if j + tag.len() <= n {
                assert(all.subrange(j, j + tag.len()) == before.subrange(j, j + tag.len()));
                assert(occurs_at(before, tag, j));
            } else {
                assert(all.subrange(j, j + tag.len())[n - j] == tag[0]);
            }
        }
    }
    lemma_find_text_is(all, tag, n);
}

/// Tests whether `needle` stands in `hay` at position `i`.
fn stands_at(hay: &Vec<char>, needle: &Vec<char>, i: usize) -> (b: bool)
    requires
        i <= hay@.len(),
    ensures
        b == occurs_at(hay@, needle@, i as int),
{
    let n: usize = hay.len();
    if needle.len() > n - i {
        return false;
    }
    let mut j: usize = 0;
    while j < needle.len()
        invariant
            n == hay@.len(),
            i + needle@.len() <= n,
            j <= needle@.len(),
            forall|l: int| 0 <= l < j ==> hay@[i + l] == needle@[l],
        decreases needle@.len() - j,
    {
        if hay[i + j] != needle[j] {
            assert(hay@.subrange(i as int, i + needle@.len())[j as int] != needle@[j as int]);
            return false;
        }
        j += 1;
    }
    assert(hay@.subrange(i as int, i + needle@.len()) == needle@);
    true
}

/// Looks for the first occurrence of `needle` in `hay`.
pub(crate) fn position_of(hay: &Vec<char>, needle: &Vec<char>) -> (r: Option<usize>)
    requires
        needle@.len() > 0,
    ensures
        match r {
            Some(i) => find_text(hay@, needle@) == Some(i as int),
            None => find_text(hay@, needle@) is None,
        },
{
    let mut i: usize = 0;
    while i < hay.len()
        invariant
            i <= hay@.len(),
            needle@.len() > 0,
            find_text(hay@, needle@) == find_from(hay@, needle@, i as int),
        decreases hay@.len() - i,
    {
        if stands_at(hay, needle, i) {
            return Some(i);
        }
        i += 1;
    }
    assert(find_from(hay@, needle@, i + 1) is None);
    None
}

/// Looks for the first `c` in `s`.
pub(crate) fn position_of_char(s: &Vec<char>, c: char) -> (r: Option<usize>)
    ensures
        match r {
            Some(i) => find_char(s@, c) == Some(i as int) && i < s@.len() && s@[i as int] == c,
            None => find_char(s@, c) is None,
        },
{
    let needle: Vec<char> = vec![c];
    assert(needle@ == seq![c]);
    let r = position_of(s, &needle);
    proof {
        lemma_find_from(s@, seq![c], 0);
        if let Some(i) = r {
            assert(s@.subrange(i as int, i + 1)[0] == c);
        }
    }
    r
}

/// Whether `a` comes before `b` in the order of strings: by the first character in which they
/// differ, a proper prefix first.
pub open spec fn precedes(a: Seq<char>, b: Seq<char>) -> bool
    decreases a.len(),
{
    if b.len() == 0 {
        false
    } else if a.len() == 0 {
        true
    } else if a[0] == b[0] {
        precedes(a.drop_first(), b.drop_first())
    } else {
        (a[0] as u32) < (b[0] as u32)
    }
}

/// Of two texts, at most one comes before the other; no text comes before itself.
pub proof fn lemma_precedes_one_way(a: Seq<char>, b: Seq<char>)
    ensures
        !(precedes(a, b) && precedes(b, a)),
    decreases a.len(),
{
    if a.len() > 0 && b.len() > 0 && a[0] == b[0] {
        lemma_precedes_one_way(a.drop_first(), b.drop_first());
    }
}

/// The texts of `list` in order, with `sep` between neighbours.
pub open spec fn join(list: Seq<Seq<char>>, sep: Seq<char>) -> Seq<char>
    decreases list.len(),
{
    if list.len() == 0 {
        Seq::empty()
    } else if list.len() > 1 {
        join(list.drop_last(), sep) + sep + list.last()
    } else {
        list.last()
    }
}

/// Concatenates the strings of `list` with `sep` between neighbours.
pub fn join_strings(list: &[String], sep: &str) -> (r: String)
    ensures
        r@ == join(texts(list@), sep@),
{
    let mut out = String::new();
    let n: usize = list.len();
    let mut i: usize = 0;
    while i < n
        invariant
            i <= n,
            n == list@.len(),
            out@ == join(texts(list@).take(i as int), sep@),
        decreases n - i,
    {
        proof {
            let upto = texts(list@).take(i + 1);
            assert(upto.drop_last() == texts(list@).take(i as int));
            assert(upto.last() == list@[i as int]@);
        }
        if i > 0 {
            out.append(sep);
        }
        out.append(list[i].as_str());
        i += 1;
    }
    assert(texts(list@).take(n as int) == texts(list@));
    out
}

/// The views of strings are those of each string, in order.
pub proof fn law_texts(list: Seq<String>)
    ensures
        texts(list).len() == list.len(),
        forall|i: int| 0 <= i < list.len() ==> #[trigger] texts(list)[i] == list[i]@,
{
}

/// The views of slices are those of each slice, in order.
pub proof fn law_slices(list: Seq<&str>)
    ensures
        slices(list).len() == list.len(),
        forall|i: int| 0 <= i < list.len() ==> #[trigger] slices(list)[i] == list[i]@,
{
}

/// White space is: the tab, the line feed and what lies up to the carriage return, the space,
/// the next-line and no-break controls, and the spaces and separators of Unicode.
pub proof fn law_white_space(c: char)
    ensures
        is_space(c) <==> {
            ||| '\t' <= c <= '\r'
            ||| c == ' '
            ||| c == '\u{85}'
            ||| c == '\u{a0}'
            ||| c == '\u{1680}'
            ||| '\u{2000}' <= c <= '\u{200a}'
            ||| c == '\u{2028}'
            ||| c == '\u{2029}'
            ||| c == '\u{202f}'
            ||| c == '\u{205f}'
            ||| c == '\u{3000}'
        },
{
}

/// White space around a text is trimmed away, and nothing of the text is: neither what begins
/// and ends with other characters, nor white space inside it.
pub proof fn law_trims_around(before: Seq<char>, core: Seq<char>, after: Seq<char>)
    requires
        forall|i: int| 0 <= i < before.len() ==> is_space(#[trigger] before[i]),
        forall|i: int| 0 <= i < after.len() ==> is_space(#[trigger] after[i]),
        core.len() > 0 ==> !is_space(core[0]) && !is_space(core[core.len() - 1]),
    ensures
        trimmed(before + core + after) == core,
{
    assert(before + core + after == before + (core + after));
    lemma_trims_start(before, core + after);
    if core.len() == 0 {
        assert(core + after == after + core);
        lemma_trims_start(after, core);
        assert(core == Seq::<char>::empty());
    } else {
        assert((core + after)[0] == core[0]);
        lemma_trims_end(core, after);
    }
}

proof fn lemma_trims_start(before: Seq<char>, s: Seq<char>)
    requires
        forall|i: int| 0 <= i < before.len() ==> is_space(#[trigger] before[i]),
    ensures
        trim_start(before + s) == trim_start(s),
    decreases before.len(),
{
    if before.len() == 0 {
        assert(before + s == s);
    } else {
        assert((before + s)[0] == before[0]);
        assert((before + s).drop_first() == before.drop_first() + s);
        lemma_trims_start(before.drop_first(), s);
    }
}

proof fn lemma_trims_end(s: Seq<char>, after: Seq<char>)
    requires
        forall|i: int| 0 <= i < after.len() ==> is_space(#[trigger] after[i]),
    ensures
        trim_end(s + after) == trim_end(s),
    decreases after.len(),
{
    if after.len() == 0 {
        assert(s + after == s);
    } else {
        assert((s + after).last() == after[after.len() - 1]);
        assert((s + after).drop_last() == s + after.drop_last());
        lemma_trims_end(s, after.drop_last());
    }
}

/// Text that is not blank is not trimmed away.
pub(crate) proof fn lemma_trimmed_keeps_core(s: Seq<char>, at: int)
    requires
        0 <= at < s.len(),
        !is_space(s[at]),
    ensures
        trimmed(s).len() > 0,
    decreases s.len(),
{
    if is_space(s[0]) {
        lemma_trimmed_keeps_core(s.drop_first(), at - 1);
    } else {
        lemma_trim_end_keeps(s);
    }
}

proof fn lemma_trim_end_keeps(s: Seq<char>)
    requires
        s.len() > 0,
        !is_space(s[0]),
    ensures
        trim_end(s).len() > 0,
    decreases s.len(),
{
    if is_space(s.last()) {
        lemma_trim_end_keeps(s.drop_last());
    }
}

/// Searching finds the first place from which the text goes on with the needle, and finds
/// nothing only where there is no such place.
pub proof fn law_found_first(hay: Seq<char>, needle: Seq<char>)
    ensures
        match find_text(hay, needle) {
            Some(k) => {
                &&& 0 <= k <= hay.len()
                &&& needle.is_prefix_of(hay.skip(k))
                &&& forall|j: int| 0 <= j < k ==> !#[trigger] needle.is_prefix_of(hay.skip(j))
            },
            None => forall|j: int|
                0 <= j <= hay.len() ==> !#[trigger] needle.is_prefix_of(hay.skip(j)),
        },
{
    lemma_find_from(hay, needle, 0);
    assert forall|j: int| 0 <= j <= hay.len() implies #[trigger] needle.is_prefix_of(hay.skip(j))
        == occurs_at(hay, needle, j) by {
        if j + needle.len() <= hay.len() {
            assert(hay.skip(j).subrange(0, needle.len() as int) == hay.subrange(
                j,
                j + needle.len(),
            ));
        }
    }
}

/// The order of strings does not look at what two texts begin with in common.
pub proof fn law_order_common(common: Seq<char>, a: Seq<char>, b: Seq<char>)
    ensures
        precedes(common + a, common + b) == precedes(a, b),
    decreases common.len(),
{
    if common.len() == 0 {
        assert(common + a == a);
        assert(common + b == b);
    } else {
        assert((common + a).drop_first() == common.drop_first() + a);
        assert((common + b).drop_first() == common.drop_first() + b);
        law_order_common(common.drop_first(), a, b);
    }
}

/// Texts that have nothing in common are ordered by their first characters, and the empty text
/// comes before all others.
pub proof fn law_order_first(a: Seq<char>, b: Seq<char>)
    requires
        a.len() > 0 && b.len() > 0 ==> a[0] != b[0],
    ensures
        precedes(a, b) == (b.len() > 0 && (a.len() == 0 || (a[0] as u32) < (b[0] as u32))),
{
}

/// Nothing joined is the empty text, and a single text joined is that text.
pub proof fn law_join_single(s: Seq<char>, sep: Seq<char>)
    ensures
        join(Seq::<Seq<char>>::empty(), sep) == Seq::<char>::empty(),
        join(seq![s], sep) == s,
{
}

/// Two lists joined as one are each joined, with the separator between them.
pub proof fn law_join_concat(a: Seq<Seq<char>>, b: Seq<Seq<char>>, sep: Seq<char>)
    requires
        a.len() > 0,
        b.len() > 0,
    ensures
        join(a + b, sep) == join(a, sep) + sep + join(b, sep),
    decreases b.len(),
{
    assert((a + b).drop_last() == a + b.drop_last());
    assert((a + b).last() == b.last());
    if b.len() == 1 {
        assert(a + b.drop_last() == a);
    } else {
        law_join_concat(a, b.drop_last(), sep);
        assert(join(a, sep) + sep + join(b.drop_last(), sep) + sep + b.last() == join(a, sep) + sep
            + join(b, sep));
    }
}

} // verus!
