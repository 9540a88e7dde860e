//! Turning text into token ids and back.

use vstd::prelude::*;
use vstd::string::*;

verus! {

/// A tokenizer: text to token ids, and token ids to text.
pub trait Tokenizer: Sized {
    /// The token ids of a text.
    spec fn tokens_of(&self, text: Seq<char>) -> Seq<u32>;

    /// The text of a sequence of token ids, with special tokens left out on request.
    spec fn text_of(&self, tokens: Seq<u32>, skip_special: bool) -> Seq<char>;

    /// Encodes a text.
    fn encode(&self, text: &str) -> (r: Vec<u32>)
        ensures
            r@ == self.tokens_of(text@),
    ;

    /// Decodes token ids.
    fn decode(&self, tokens: &[u32], skip_special: bool) -> (r: String)
        ensures
            r@ == self.text_of(tokens@, skip_special),
    ;
}

/// Whether `t` decodes what it encoded `text` to as that text.
pub open spec fn preserves<T: Tokenizer>(t: T, text: Seq<char>) -> bool {
    t.text_of(t.tokens_of(text), false) == text
}

/// Whether decoding follows along: the tokens of a preserved text, put after other tokens, put
/// that text after the text of those.
pub open spec fn appends<T: Tokenizer>(t: T) -> bool {
    forall|before: Seq<u32>, text: Seq<char>|
        #![trigger t.text_of(before + t.tokens_of(text), false)]
        preserves(t, text) ==> t.text_of(before + t.tokens_of(text), false) == t.text_of(
            before,
            false,
        ) + text
}

/// A tokenizer for a closed vocabulary. Each entry is one token, whose id is its position;
/// text that is no entry has no tokens, and there are no special tokens.
pub struct VocabTokenizer {
    vocab: Vec<String>,
}

impl View for VocabTokenizer {
    type V = Seq<Seq<char>>;

    closed spec fn view(&self) -> Seq<Seq<char>> {
        crate::text::texts(self.vocab@)
    }
}

/// The entries that `tokens` stand for, in a row; ids beyond the vocabulary stand for nothing.
pub open spec fn entries_text(vocab: Seq<Seq<char>>, tokens: Seq<u32>) -> Seq<char>
    decreases tokens.len(),
{
    if tokens.len() == 0 {
        Seq::empty()
    } else {
        let before = entries_text(vocab, tokens.drop_last());
        if (tokens.last() as int) < vocab.len() {
            before + vocab[tokens.last() as int]
        } else {
            before
        }
    }
}

impl VocabTokenizer {
    #[verifier::type_invariant]
    spec fn ids_fit(self) -> bool {
        self.vocab@.len() <= 0x1_0000_0000
    }

    /// The tokenizer whose vocabulary is `vocab`.
    pub fn from_vocab(vocab: &[String]) -> (r: Self)
        requires
            vocab@.len() <= 0x1_0000_0000,
        ensures
            r@ == crate::text::texts(vocab@),
    {
        let n: usize = vocab.len();
        let mut entries: Vec<String> = Vec::new();
        let mut i: usize = 0;
        while i < n
            invariant
                i <= n,
                n == vocab@.len(),
                entries@ == vocab@.take(i as int),
            decreases n - i,
        {
            entries.push(vocab[i].clone());
            i += 1;
        }
        assert(vocab@.take(n as int) == vocab@);
        VocabTokenizer { vocab: entries }
    }
}

impl Tokenizer for VocabTokenizer {
    open spec fn tokens_of(&self, text: Seq<char>) -> Seq<u32> {
        match self@.index_of_first(text) {
            Some(i) => seq![i as u32],
            None => Seq::empty(),
        }
    }

    open spec fn text_of(&self, tokens: Seq<u32>, skip_special: bool) -> Seq<char> {
        entries_text(self@, tokens)
    }

    fn encode(&self, text: &str) -> (r: Vec<u32>) {
        proof {
            use_type_invariant(self);
            self@.index_of_first_ensures(text@);
        }
        let wanted = text.to_owned();
        let n: usize = self.vocab.len();
        let mut i: usize = 0;
        while i < n
            invariant
                i <= n,
                n == self.vocab@.len(),
                n <= 0x1_0000_0000,
                wanted@ == text@,
                forall|j: int| 0 <= j < i ==> #[trigger] self@[j] != text@,
            decreases n - i,
        {
            assert(self@[i as int] == self.vocab@[i as int]@);
            if self.vocab[i] == wanted {
                proof {
                    self@.index_of_first_ensures(text@);
                    assert(self@.contains(text@));
                    assert(self@.index_of_first(text@) == Some(i as int));
                }
                let r: Vec<u32> = vec![i as u32];
                assert(r@ == seq![i as u32]);
                return r;
            }
            i += 1;
        }
        assert(!self@.contains(text@));
        Vec::new()
    }

    fn decode(&self, tokens: &[u32], skip_special: bool) -> (r: String) {
        let n: usize = tokens.len();
        let mut out = String::new();
        let mut i: usize = 0;
        while i < n
            invariant
                i <= n,
                n == tokens@.len(),
                out@ == entries_text(self@, tokens@.take(i as int)),
            decreases n - i,
        {
            proof {
                assert(tokens@.take(i + 1).drop_last() == tokens@.take(i as int));
            }
            let id: usize = tokens[i] as usize;
            if id < self.vocab.len() {
                out.append(self.vocab[id].as_str());
            }
            i += 1;
        }
        assert(tokens@.take(n as int) == tokens@);
        out
    }
}

/// Decoding of a vocabulary tokenizer follows along.
pub proof fn law_vocab_appends(t: VocabTokenizer)
    ensures
        appends(t),
{
    assert forall|before: Seq<u32>, text: Seq<char>|
        #![trigger t.text_of(before + t.tokens_of(text), false)]
        preserves(t, text) implies t.text_of(before + t.tokens_of(text), false) == t.text_of(
        before,
        false,
    ) + text by {
        lemma_entries_text_concat(t@, before, t.tokens_of(text));
    }
}

proof fn lemma_entries_text_concat(vocab: Seq<Seq<char>>, a: Seq<u32>, b: Seq<u32>)
    ensures
        entries_text(vocab, a + b) == entries_text(vocab, a) + entries_text(vocab, b),
    decreases b.len(),
{
    if b.len() == 0 {
        assert(a + b == a);
    } else {
        lemma_entries_text_concat(vocab, a, b.drop_last());
        assert((a + b).drop_last() == a + b.drop_last());
    }
}

/// A vocabulary tokenizer decodes what it encoded an entry to as that entry.
pub proof fn law_vocab_preserves(t: VocabTokenizer, entry: Seq<char>)
    requires
        t@.len() <= 0x1_0000_0000,
        t@.contains(entry),
    ensures
        preserves(t, entry),
{
    t@.index_of_first_ensures(entry);
    let i = t@.index_of_first(entry).unwrap();
    reveal_with_fuel(entries_text, 2);
    assert(entries_text(t@, seq![i as u32]) == entry);
}

/// A vocabulary tokenizer encodes an entry to one token, whose id is the first position of the
/// entry, and text that is no entry to no tokens.
pub proof fn law_vocab_encodes(t: VocabTokenizer, text: Seq<char>, i: int)
    requires
        t@.len() <= 0x1_0000_0000,
    ensures
        0 <= i < t@.len() && t@[i] == text && (forall|j: int| 0 <= j < i ==> t@[j] != text)
            ==> t.tokens_of(text).len() == 1 && t.tokens_of(text)[0] == i,
        !t@.contains(text) ==> t.tokens_of(text).len() == 0,
{
    t@.index_of_first_ensures(text);
    if 0 <= i < t@.len() && t@[i] == text && (forall|j: int| 0 <= j < i ==> t@[j] != text) {
        assert(t@.contains(text));
    }
}

/// A vocabulary tokenizer decodes an id to the entry at that position, and an id beyond the
/// vocabulary to nothing; tokens in a row decode to their texts in a row. There are no special
/// tokens to leave out.
pub proof fn law_vocab_decodes(t: VocabTokenizer, a: Seq<u32>, id: u32, b: Seq<u32>, skip: bool)
    ensures
        t.text_of(Seq::<u32>::empty(), skip) == Seq::<char>::empty(),
        t.text_of(seq![id], skip) == if (id as int) < t@.len() {
            t@[id as int]
        } else {
            Seq::<char>::empty()
        },
        t.text_of(a + b, skip) == t.text_of(a, skip) + t.text_of(b, skip),
{
    lemma_entries_text_concat(t@, a, b);
    reveal_with_fuel(entries_text, 2);
    assert(seq![id].drop_last() == Seq::<u32>::empty());
}

} // verus!
