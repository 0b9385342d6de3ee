//! Character-level tokenizer.
use vstd::prelude::*;

verus! {

/// The characters stand in ascending order, each once.
pub open spec fn is_ascending(chars: Seq<char>) -> bool {
    forall|i: int, j: int| 0 <= i < j < chars.len() ==> #[trigger] chars[i] < #[trigger] chars[j]
}

/// The ids of those characters of `text` that the vocabulary has: the id of a character is
/// its place in the vocabulary.
pub open spec fn encoded(vocab: Seq<char>, text: Seq<char>) -> Seq<u32>
    decreases text.len(),
{
    if text.len() == 0 {
        Seq::empty()
    } else {
        let rest = encoded(vocab, text.drop_last());
        if vocab.contains(text.last()) {
            rest.push(vocab.index_of(text.last()) as u32)
        } else {
            rest
        }
    }
}

/// The characters that those of the ids stand for which are in the vocabulary.
pub open spec fn decoded(vocab: Seq<char>, ids: Seq<u32>) -> Seq<char>
    decreases ids.len(),
{
    if ids.len() == 0 {
        Seq::empty()
    } else {
        let rest = decoded(vocab, ids.drop_last());
        if ids.last() < vocab.len() {
            rest.push(vocab[ids.last() as int])
        } else {
            rest
        }
    }
}

/// A vocabulary holds no more characters than there are code points.
pub proof fn lemma_vocabulary_size(vocab: Seq<char>)
    requires
        is_ascending(vocab),
    ensures
        vocab.len() <= 0x11_0000,
{
    if vocab.len() > 0 {
        lemma_code_point_bound(vocab, vocab.len() - 1);
        lemma_code_point(vocab[vocab.len() - 1]);
    }
}

/// A character is a code point.
proof fn lemma_code_point(c: char)
    ensures
        0 <= c as int <= 0x10_ffff,
{
}

proof fn lemma_code_point_bound(vocab: Seq<char>, i: int)
    requires
        is_ascending(vocab),
        0 <= i < vocab.len(),
    ensures
        i <= vocab[i] as int,
    decreases i,
{
    lemma_code_point(vocab[i]);
    if i > 0 {
        lemma_code_point_bound(vocab, i - 1);
        assert(vocab[i - 1] < vocab[i]);
    }
}

/// In an ascending vocabulary a character has one place only.
proof fn lemma_place(vocab: Seq<char>, i: int)
    requires
        is_ascending(vocab),
        0 <= i < vocab.len(),
    ensures
        vocab.index_of(vocab[i]) == i,
{
    let j = vocab.index_of(vocab[i]);
    assert(vocab.contains(vocab[i]));
    if j < i {
        assert(vocab[j] < vocab[i]);
    }
    if i < j {
        assert(vocab[i] < vocab[j]);
    }
}

/// Maps characters to ids and back. The vocabulary is in ascending order, and the id of a
/// character is its place there.
#[derive(Debug, Clone)]
pub struct CharTokenizer {
    itos: Vec<char>,
}

impl CharTokenizer {
    /// The vocabulary, in the order of the ids.
    pub closed spec fn vocab(self) -> Seq<char> {
        self.itos@
    }

    /// The vocabulary is in ascending order without repetition.
    pub open spec fn wf(self) -> bool {
        is_ascending(self.vocab())
    }

    /// The first place in `chars` that does not stand before `c`.
    fn lower_bound(chars: &Vec<char>, c: char) -> (place: usize)
        requires
            is_ascending(chars@),
        ensures
            place <= chars@.len(),
            forall|i: int| 0 <= i < place ==> #[trigger] chars@[i] < c,
            forall|i: int| place <= i < chars@.len() ==> #[trigger] chars@[i] >= c,
    {
        let mut low: usize = 0;
        let mut high: usize = chars.len();
        while low < high
            invariant
                is_ascending(chars@),
                low <= high <= chars@.len(),
                forall|i: int| 0 <= i < low ==> #[trigger] chars@[i] < c,
                forall|i: int| high <= i < chars@.len() ==> #[trigger] chars@[i] >= c,
            decreases high - low,
        {
            let mid: usize = low + (high - low) / 2;
            if chars[mid] < c {
                assert forall|i: int| 0 <= i < mid + 1 implies #[trigger] chars@[i] < c by {
                    if i < mid {
                        assert(chars@[i] < chars@[mid as int]);
                    }
                }
                low = mid + 1;
            } else {
                assert forall|i: int| mid <= i < chars@.len() implies #[trigger] chars@[i] >= c by {
                    if mid < i {
                        assert(chars@[mid as int] < chars@[i]);
                    }
                }
                high = mid;
            }
        }
        low
    }

    /// The vocabulary is the set of characters of `text`, in ascending order.
    pub fn from_text(text: &str) -> (tokenizer: CharTokenizer)
        ensures
            tokenizer.wf(),
            forall|c: char| #[trigger] tokenizer.vocab().contains(c) <==> text@.contains(c),
    {
        let mut itos: Vec<char> = Vec::new();
        for c in it: text.chars()
            invariant
                is_ascending(itos@),
                it.seq() == text@,
                forall|x: char| #[trigger]
                    itos@.contains(x) <==> it.seq().take(it.index() as int).contains(x),
        {
            let ghost before = itos@;
            let ghost seen = it.seq().take(it.index() as int);
            let place = CharTokenizer::lower_bound(&itos, c);
            if place == itos.len() || itos[place] != c {
                itos.insert(place, c);
            }
            proof {
                let now = it.seq().take(it.index() + 1);
                assert(now =~= seen.push(c));
                assert forall|x: char| #[trigger] itos@.contains(x) <==> now.contains(x) by {
                    assert(now.contains(x) <==> seen.contains(x) || x == c) by {
                        if seen.contains(x) {
                            let i = seen.index_of(x);
                            assert(now[i] == x);
                        }
                        if x == c {
                            assert(now[now.len() - 1] == x);
                        }
                        if now.contains(x) {
                            let i = now.index_of(x);
                            if i < seen.len() {
                                assert(seen[i] == x);
                            }
                        }
                    }
                    if itos@ != before {
                        assert(itos@ == before.insert(place as int, c));
                        if before.contains(x) {
                            let i = before.index_of(x);
                            if i < place {
                                assert(itos@[i] == x);
                            } else {
                                assert(itos@[i + 1] == x);
                            }
                        }
                        assert(itos@[place as int] == c);
                        if itos@.contains(x) {
                            let i = itos@.index_of(x);
                            if i < place {
                                assert(before[i] == x);
                            } else if i > place {
                                assert(before[i - 1] == x);
                            }
                        }
                    } else if x == c {
                        assert(before[place as int] == c);
                    }
                }
            }
        }
        assert(text@.take(text@.len() as int) =~= text@);
        CharTokenizer { itos }
    }

    /// The number of different characters.
    pub fn vocab_size(&self) -> (n: usize)
        ensures
            n == self.vocab().len(),
    {
        self.itos.len()
    }

    /// The ids of the characters of `text`. Characters outside the vocabulary are left out.
    pub fn encode(&self, text: &str) -> (ids: Vec<u32>)
        requires
            self.wf(),
        ensures
            ids@ == encoded(self.vocab(), text@),
    {
        proof {
            lemma_vocabulary_size(self.vocab());
        }
        let mut ids: Vec<u32> = Vec::new();
        for c in it: text.chars()
            invariant
                self.wf(),
                self.vocab().len() <= 0x11_0000,
                it.seq() == text@,
                ids@ == encoded(self.vocab(), it.seq().take(it.index() as int)),
        {
            proof {
                let now = it.seq().take(it.index() + 1);
                assert(now.drop_last() =~= it.seq().take(it.index() as int));
                assert(now.last() == c);
            }
            let place = CharTokenizer::lower_bound(&self.itos, c);
            if place < self.itos.len() && self.itos[place] == c {
                proof {
                    lemma_place(self.vocab(), place as int);
                    assert(self.vocab().contains(c));
                }
                ids.push(place as u32);
            } else {
                assert(!self.vocab().contains(c)) by {
                    if self.vocab().contains(c) {
                        let i = self.vocab().index_of(c);
                        if place < i {
                            assert(self.vocab()[place as int] < self.vocab()[i]);
                        }
                    }
                }
            }
        }
        assert(text@.take(text@.len() as int) =~= text@);
        ids
    }

    /// The characters that `ids` stand for. Ids outside the vocabulary are left out.
    pub fn decode(&self, ids: &[u32]) -> (text: String)
        requires
            self.wf(),
        ensures
            text@ == decoded(self.vocab(), ids@),
    {
        let mut text = String::new();
        let mut i: usize = 0;
        while i < ids.len()
            invariant
                i <= ids@.len(),
                text@ == decoded(self.vocab(), ids@.take(i as int)),
            decreases ids@.len() - i,
        {
            proof {
                assert(ids@.take(i + 1).drop_last() =~= ids@.take(i as int));
            }
            let id = ids[i] as usize;
            if id < self.itos.len() {
                text.push(self.itos[id]);
            }
            i = i + 1;
        }
        assert(ids@.take(ids@.len() as int) =~= ids@);
        text
    }
}

/// Every id that encoding gives is below the size of the vocabulary.
pub proof fn law_ids_in_vocabulary(vocab: Seq<char>, text: Seq<char>)
    requires
        is_ascending(vocab),
    ensures
        forall|i: int|
            0 <= i < encoded(vocab, text).len() ==> #[trigger] encoded(vocab, text)[i] < vocab.len(),
    decreases text.len(),
{
    lemma_vocabulary_size(vocab);
    if text.len() > 0 {
        law_ids_in_vocabulary(vocab, text.drop_last());
        let rest = encoded(vocab, text.drop_last());
        assert forall|i: int| 0 <= i < encoded(vocab, text).len() implies #[trigger] encoded(
            vocab,
            text,
        )[i] < vocab.len() by {
            if i < rest.len() {
                assert(rest[i] < vocab.len());
            }
        }
    }
}

/// Decoding what encoding gave brings back the characters of the text that are in the
/// vocabulary, in order.
pub proof fn law_decode_encode(vocab: Seq<char>, text: Seq<char>)
    requires
        is_ascending(vocab),
    ensures
        decoded(vocab, encoded(vocab, text)) == text.filter(|c: char| vocab.contains(c)),
    decreases text.len(),
{
    reveal(Seq::filter);
    lemma_vocabulary_size(vocab);
    if text.len() > 0 {
        law_decode_encode(vocab, text.drop_last());
        if vocab.contains(text.last()) {
            let ids = encoded(vocab, text);
            assert(ids.drop_last() =~= encoded(vocab, text.drop_last()));
        }
    }
}

/// A text whose characters are all in the vocabulary, such as the one that the vocabulary
/// was made from, comes back from encoding and decoding unchanged.
pub proof fn law_known_text_round_trips(vocab: Seq<char>, text: Seq<char>)
    requires
        is_ascending(vocab),
        forall|i: int| 0 <= i < text.len() ==> vocab.contains(#[trigger] text[i]),
    ensures
        decoded(vocab, encoded(vocab, text)) == text,
        encoded(vocab, text).len() == text.len(),
    decreases text.len(),
{
    lemma_vocabulary_size(vocab);
    if text.len() > 0 {
        assert forall|i: int| 0 <= i < text.drop_last().len() implies vocab.contains(
            #[trigger] text.drop_last()[i],
        ) by {
            assert(vocab.contains(text[i]));
        }
        law_known_text_round_trips(vocab, text.drop_last());
        let ids = encoded(vocab, text);
        assert(vocab.contains(text[text.len() - 1]));
        assert(ids.drop_last() =~= encoded(vocab, text.drop_last()));
        assert(text =~= text.drop_last().push(text.last()));
    }
}

/// Ids of the vocabulary come back from decoding and encoding unchanged.
pub proof fn law_encode_decode(vocab: Seq<char>, ids: Seq<u32>)
    requires
        is_ascending(vocab),
        forall|i: int| 0 <= i < ids.len() ==> #[trigger] ids[i] < vocab.len(),
    ensures
        encoded(vocab, decoded(vocab, ids)) == ids,
    decreases ids.len(),
{
    lemma_vocabulary_size(vocab);
    if ids.len() > 0 {
        assert forall|i: int| 0 <= i < ids.drop_last().len() implies #[trigger] ids.drop_last()[i]
            < vocab.len() by {
            assert(ids[i] < vocab.len());
        }
        law_encode_decode(vocab, ids.drop_last());
        let last = ids[ids.len() - 1];
        assert(last < vocab.len());
        let text = decoded(vocab, ids);
        assert(text.drop_last() =~= decoded(vocab, ids.drop_last()));
        assert(vocab.contains(vocab[last as int]));
        lemma_place(vocab, last as int);
        assert(ids =~= ids.drop_last().push(last));
    }
}

/// The characters of a text determine the vocabulary, so every node that reads the same
/// corpus assigns the same ids.
pub proof fn law_vocabulary_is_determined(left: Seq<char>, right: Seq<char>)
    requires
        is_ascending(left),
        is_ascending(right),
        forall|c: char| #[trigger] left.contains(c) <==> right.contains(c),
    ensures
        left == right,
    decreases left.len(),
{
    if left.len() == 0 {
        if right.len() > 0 {
            assert(right.contains(right[0]));
            assert(left.contains(right[0]));
        }
    } else {
        assert(left.contains(left.last()));
        assert(right.contains(left.last()));
        assert(right.contains(right.last()));
        assert(left.contains(right.last()));
        let i = left.index_of(right.last());
        let j = right.index_of(left.last());
        if left.last() != right.last() {
            assert(left[i] < left[left.len() - 1]);
            assert(right[j] < right[right.len() - 1]);
        }
        let shorter_left = left.drop_last();
        let shorter_right = right.drop_last();
        assert forall|c: char| #[trigger] shorter_left.contains(c) <==> shorter_right.contains(c) by {
            if shorter_left.contains(c) {
                let k = shorter_left.index_of(c);
                assert(left[k] == c);
                assert(left.contains(c));
                let m = right.index_of(c);
                assert(left[k] < left[left.len() - 1]);
                assert(shorter_right[m] == c);
            }
            if shorter_right.contains(c) {
                let k = shorter_right.index_of(c);
                assert(right[k] == c);
                assert(right.contains(c));
                assert(left.contains(c));
                let m = left.index_of(c);
                assert(right[k] < right[right.len() - 1]);
                assert(shorter_left[m] == c);
            }
        }
        law_vocabulary_is_determined(shorter_left, shorter_right);
        assert(left =~= shorter_left.push(left.last()));
        assert(right =~= shorter_right.push(right.last()));
    }
}

/// Encoding looks up every character that the vocabulary has, and leaves out the others.
pub proof fn law_encoding_character_by_character(vocab: Seq<char>, text: Seq<char>)
    ensures
        encoded(vocab, text) == text.filter(|c: char| vocab.contains(c)).map_values(
            |c: char| vocab.index_of(c) as u32,
        ),
    decreases text.len(),
{
    reveal(Seq::filter);
    let known = |c: char| vocab.contains(c);
    let id = |c: char| vocab.index_of(c) as u32;
    if text.len() > 0 {
        law_encoding_character_by_character(vocab, text.drop_last());
        let rest = text.drop_last().filter(known);
        if known(text.last()) {
            assert(rest.push(text.last()).map_values(id) =~= rest.map_values(id).push(
                id(text.last()),
            ));
        }
    }
    assert(encoded(vocab, text) =~= text.filter(known).map_values(id));
}

/// Decoding looks up every id that the vocabulary has, and leaves out the others.
pub proof fn law_decoding_id_by_id(vocab: Seq<char>, ids: Seq<u32>)
    ensures
        decoded(vocab, ids) == ids.filter(|id: u32| id < vocab.len()).map_values(
            |id: u32| vocab[id as int],
        ),
    decreases ids.len(),
{
    reveal(Seq::filter);
    let known = |id: u32| id < vocab.len();
    let character = |id: u32| vocab[id as int];
    if ids.len() > 0 {
        law_decoding_id_by_id(vocab, ids.drop_last());
        let rest = ids.drop_last().filter(known);
        if known(ids.last()) {
            assert(rest.push(ids.last()).map_values(character) =~= rest.map_values(character).push(
                character(ids.last()),
            ));
        }
    }
    assert(decoded(vocab, ids) =~= ids.filter(known).map_values(character));
}

/// The parts of a text are encoded each on its own: what stands before or behind makes no
/// difference.
pub proof fn law_parts_are_encoded_on_their_own(vocab: Seq<char>, a: Seq<char>, b: Seq<char>)
    ensures
        encoded(vocab, a + b) == encoded(vocab, a) + encoded(vocab, b),
    decreases b.len(),
{
    if b.len() == 0 {
        assert(a + b =~= a);
        assert(encoded(vocab, a) + encoded(vocab, b) =~= encoded(vocab, a));
    } else {
        law_parts_are_encoded_on_their_own(vocab, a, b.drop_last());
        assert((a + b).drop_last() =~= a + b.drop_last());
        assert(encoded(vocab, a + b) =~= encoded(vocab, a) + encoded(vocab, b));
    }
}

} // verus!
