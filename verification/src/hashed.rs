//! Hashed (feature-hashing) embedder.
//!
//! Tokenizes text into normalized words, produces unigram + bigram features,
//! deterministically hashes each into positions of a fixed-dim vector, and adds
//! up the hits. No model is involved: texts are similar as far as they share
//! words.

use std::collections::hash_map::DefaultHasher;
use std::hash::Hasher;
use vstd::prelude::*;
use vstd::seq_lib::{group_to_multiset_ensures, lemma_fold_right_permutation};
use vstd::set_lib::{lemma_int_range, set_int_range};
use vstd::std_specs::hash::DefaultHasherAdditionalSpecFns;
use vstd::utf8::encode_utf8;

use crate::bits::{
    low_word, to_low_word, u64_bytes, u64_to_bytes, usize_bytes, usize_to_bytes,
};
use crate::error::PrimdError;
use crate::quantize::{holds_signs, quantize_direct};
use crate::signature::BinarySignature;
use crate::text::{
    chars_of, lemma_runs_break, lemma_whole_run, runs, same_text, split_runs, texts_of,
};

verus! {

const DEFAULT_HASH_BANDS: usize = 4;

const DEFAULT_SEED: u64 = 0xC0DE_FACE_F00D_BEEF;

/// A position of the vector is not counted further than this, up or down.
pub const MAX_HITS: i32 = 16_777_216;

/// Whether a character is a letter or a number in the sense of Unicode.
pub uninterp spec fn alphanumeric(c: char) -> bool;

/// The lowercase equivalent of a text in the sense of Unicode.
pub uninterp spec fn lowercased(text: Seq<char>) -> Seq<char>;

/// `char::is_alphanumeric` of std. Which characters those are is left to the
/// Unicode tables of std.
pub assume_specification[ char::is_alphanumeric ](c: char) -> (b: bool)
    ensures
        b == alphanumeric(c),
;

/// `str::to_lowercase` of std. What the lowercase equivalent is is left to the
/// Unicode tables of std.
pub assume_specification[ str::to_lowercase ](s: &str) -> (r: String)
    ensures
        r@ == lowercased(s@),
;

/// Common English stop words.
pub open spec fn stop_words() -> Seq<&'static str> {
    seq![
        "a", "an", "and", "are", "as", "at", "be", "by", "for", "from", "has", "have", "i", "in",
        "is", "it", "its", "of", "on", "or", "that", "the", "to", "was", "were", "will", "with",
        "you", "your", "this", "do", "does", "did", "can", "could", "would", "should", "if", "but",
        "not", "no", "my", "me", "we", "our", "us", "they", "them", "their", "he", "she", "his",
        "her", "him", "any", "all", "every", "some", "such", "than", "then", "there", "these",
        "those", "what", "when", "where", "which", "who", "why", "how", "so", "too", "very",
    ]
}

/// Whether a word is one of the stop words.
pub open spec fn is_stop_word(word: Seq<char>) -> bool {
    exists|i: int| 0 <= i < stop_words().len() && (#[trigger] stop_words()[i])@ == word
}

/// Whether a word is one of the stop words.
pub fn is_stopword(token: &str) -> (b: bool)
    ensures
        b == is_stop_word(token@),
{
    let words: [&str; 74] = [
        "a", "an", "and", "are", "as", "at", "be", "by", "for", "from", "has", "have", "i", "in",
        "is", "it", "its", "of", "on", "or", "that", "the", "to", "was", "were", "will", "with",
        "you", "your", "this", "do", "does", "did", "can", "could", "would", "should", "if", "but",
        "not", "no", "my", "me", "we", "our", "us", "they", "them", "their", "he", "she", "his",
        "her", "him", "any", "all", "every", "some", "such", "than", "then", "there", "these",
        "those", "what", "when", "where", "which", "who", "why", "how", "so", "too", "very",
    ];
    assert(words@ =~= stop_words());
    let mut i: usize = 0;
    while i < 74
        invariant
            i <= 74,
            words@ == stop_words(),
            forall|j: int| 0 <= j < i ==> (#[trigger] stop_words()[j])@ != token@,
        decreases 74 - i,
    {
        if same_text(words[i], token) {
            assert(stop_words()[i as int]@ == token@);
            return true;
        }
        i = i + 1;
    }
    false
}

/// Which characters are letters or numbers.
pub open spec fn kept(text: Seq<char>) -> Seq<bool> {
    text.map_values(|c: char| alphanumeric(c))
}

/// The words of a text: its runs of letters and numbers, in lowercase.
pub open spec fn words_in(text: Seq<char>) -> Seq<Seq<char>> {
    runs(text, kept(text)).map_values(|w: Seq<char>| lowercased(w))
}

/// The words of a text: its runs of letters and numbers, in lowercase.
pub fn tokenize(text: &str) -> (words: Vec<String>)
    ensures
        texts_of(words@) == words_in(text@),
{
    let chars = chars_of(text);
    let mut keep: Vec<bool> = Vec::new();
    let mut i: usize = 0;
    while i < chars.len()
        invariant
            i <= chars@.len(),
            keep@ == kept(chars@).take(i as int),
        decreases chars@.len() - i,
    {
        keep.push(chars[i].is_alphanumeric());
        i = i + 1;
        assert(keep@ =~= kept(chars@).take(i as int));
    }
    assert(keep@ =~= kept(chars@));
    let cut = split_runs(chars.as_slice(), keep.as_slice());
    let mut words: Vec<String> = Vec::new();
    let mut i: usize = 0;
    while i < cut.len()
        invariant
            i <= cut@.len(),
            texts_of(cut@) == runs(text@, kept(text@)),
            texts_of(words@) == words_in(text@).take(i as int),
        decreases cut@.len() - i,
    {
        let ghost before = words@;
        words.push(cut[i].as_str().to_lowercase());
        i = i + 1;
        proof {
            assert(texts_of(cut@)[i - 1] == cut@[i - 1]@);
            assert(texts_of(words@) =~= texts_of(before).push(words@.last()@));
            assert(texts_of(words@) =~= words_in(text@).take(i as int));
        }
    }
    assert(cut@.len() == texts_of(cut@).len());
    assert(words_in(text@).take(i as int) =~= words_in(text@));
    words
}

/// The words without the stop words.
pub open spec fn without_stop_words(words: Seq<Seq<char>>) -> Seq<Seq<char>>
    decreases words.len(),
{
    if words.len() == 0 {
        Seq::empty()
    } else {
        let before = without_stop_words(words.drop_last());
        if is_stop_word(words.last()) {
            before
        } else {
            before.push(words.last())
        }
    }
}

/// Each word with the word behind it.
pub open spec fn bigrams(words: Seq<Seq<char>>) -> Seq<Seq<char>> {
    if words.len() == 0 {
        Seq::empty()
    } else {
        Seq::new((words.len() - 1) as nat, |i: int| words[i].push('_') + words[i + 1])
    }
}

/// The hash of a feature in a band.
pub open spec fn feature_hash(seed: u64, band: nat, feature: Seq<char>) -> u64 {
    DefaultHasher::spec_finish(
        seq![
            u64_bytes(seed),
            usize_bytes(band as usize),
            encode_utf8(feature),
            seq![0xffu8],
        ],
    )
}

/// One hit more or less.
pub open spec fn bumped(v: i32, up: bool) -> i32 {
    if up {
        if v < MAX_HITS {
            (v + 1) as i32
        } else {
            v
        }
    } else if v > -MAX_HITS {
        (v - 1) as i32
    } else {
        v
    }
}

/// The vector after the hits of a feature in the first `bands` bands. The
/// position of a hit is the hash, as a machine word, modulo the dimension, and bit 32 of the hash
/// makes it count down.
pub open spec fn with_feature(
    acc: Seq<i32>,
    seed: u64,
    bands: nat,
    feature: Seq<char>,
) -> Seq<i32>
    decreases bands,
{
    if bands == 0 {
        acc
    } else {
        let before = with_feature(acc, seed, (bands - 1) as nat, feature);
        let h = feature_hash(seed, (bands - 1) as nat, feature);
        let pos = low_word(h) % before.len() as int;
        before.update(pos, bumped(before[pos], (h as int / 0x1_0000_0000) % 2 == 0))
    }
}

/// The vector after the hits of all the features.
pub open spec fn with_features(
    acc: Seq<i32>,
    seed: u64,
    bands: nat,
    features: Seq<Seq<char>>,
) -> Seq<i32>
    decreases features.len(),
{
    if features.len() == 0 {
        acc
    } else {
        with_feature(
            with_features(acc, seed, bands, features.drop_last()),
            seed,
            bands,
            features.last(),
        )
    }
}

/// The words that count.
pub open spec fn counted_of(drop_stopwords: bool, words: Seq<Seq<char>>) -> Seq<Seq<char>> {
    if drop_stopwords {
        without_stop_words(words)
    } else {
        words
    }
}

/// What words are embedded as: the words that count, then the pairs of
/// neighbours among them.
pub open spec fn features_of(
    use_bigrams: bool,
    drop_stopwords: bool,
    words: Seq<Seq<char>>,
) -> Seq<Seq<char>> {
    let counted = counted_of(drop_stopwords, words);
    if use_bigrams {
        counted + bigrams(counted)
    } else {
        counted
    }
}

/// The vector of a text with the given words.
pub open spec fn hashed_vector(
    dim: nat,
    seed: u64,
    bands: nat,
    use_bigrams: bool,
    drop_stopwords: bool,
    words: Seq<Seq<char>>,
) -> Seq<i32> {
    with_features(
        Seq::new(dim, |i: int| 0i32),
        seed,
        bands,
        features_of(use_bigrams, drop_stopwords, words),
    )
}

/// Embeds text by hashing its words.
pub struct HashedEmbedder {
    dim: usize,
    hash_bands: usize,
    seed: u64,
    use_bigrams: bool,
    drop_stopwords: bool,
}

impl HashedEmbedder {
    pub closed spec fn spec_dim(&self) -> nat {
        self.dim as nat
    }

    pub closed spec fn bands(&self) -> nat {
        self.hash_bands as nat
    }

    pub closed spec fn spec_seed(&self) -> u64 {
        self.seed
    }

    pub closed spec fn uses_bigrams(&self) -> bool {
        self.use_bigrams
    }

    pub closed spec fn drops_stopwords(&self) -> bool {
        self.drop_stopwords
    }

    /// The words that count.
    pub open spec fn counted(&self, words: Seq<Seq<char>>) -> Seq<Seq<char>> {
        counted_of(self.drops_stopwords(), words)
    }

    /// The vector of a text with the given words.
    pub open spec fn vector(&self, words: Seq<Seq<char>>) -> Seq<i32> {
        hashed_vector(
            self.spec_dim(),
            self.spec_seed(),
            self.bands(),
            self.uses_bigrams(),
            self.drops_stopwords(),
            words,
        )
    }

    /// `dim` should be 256 for direct quantization, or any dim that matches
    /// a projector's `source_dim`. 256, 384, 512 are all reasonable.
    pub fn new(dim: usize) -> (e: Self)
        ensures
            e.spec_dim() == dim,
            e.bands() == 4,
            e.spec_seed() == 0xC0DE_FACE_F00D_BEEF,
            e.uses_bigrams(),
            e.drops_stopwords(),
    {
        HashedEmbedder {
            dim,
            hash_bands: DEFAULT_HASH_BANDS,
            seed: DEFAULT_SEED,
            use_bigrams: true,
            drop_stopwords: true,
        }
    }

    pub fn with_seed(self, seed: u64) -> (e: Self)
        ensures
            e.spec_seed() == seed,
            e.spec_dim() == self.spec_dim(),
            e.bands() == self.bands(),
            e.uses_bigrams() == self.uses_bigrams(),
            e.drops_stopwords() == self.drops_stopwords(),
    {
        HashedEmbedder { seed, ..self }
    }

    /// At least one band is used.
    pub fn with_hash_bands(self, bands: usize) -> (e: Self)
        ensures
            e.bands() == if bands == 0 {
                1
            } else {
                bands as nat
            },
            e.spec_seed() == self.spec_seed(),
            e.spec_dim() == self.spec_dim(),
            e.uses_bigrams() == self.uses_bigrams(),
            e.drops_stopwords() == self.drops_stopwords(),
    {
        let hash_bands: usize = if bands == 0 {
            1
        } else {
            bands
        };
        HashedEmbedder { hash_bands, ..self }
    }

    pub fn without_bigrams(self) -> (e: Self)
        ensures
            !e.uses_bigrams(),
            e.spec_seed() == self.spec_seed(),
            e.spec_dim() == self.spec_dim(),
            e.bands() == self.bands(),
            e.drops_stopwords() == self.drops_stopwords(),
    {
        HashedEmbedder { use_bigrams: false, ..self }
    }

    pub fn keep_stopwords(self) -> (e: Self)
        ensures
            !e.drops_stopwords(),
            e.spec_seed() == self.spec_seed(),
            e.spec_dim() == self.spec_dim(),
            e.bands() == self.bands(),
            e.uses_bigrams() == self.uses_bigrams(),
    {
        HashedEmbedder { drop_stopwords: false, ..self }
    }

    pub fn dim(&self) -> (n: usize)
        ensures
            n == self.spec_dim(),
    {
        self.dim
    }

    /// The hash of a token in a band: what hashing the seed, the band and the
    /// token one after the other gives.
    fn token_hash(&self, token: &str, band: usize) -> (h: u64)
        ensures
            h == feature_hash(self.spec_seed(), band as nat, token@),
    {
        let end: [u8; 1] = [0xff];
        let mut hasher = DefaultHasher::new();
        hasher.write(u64_to_bytes(self.seed).as_slice());
        hasher.write(usize_to_bytes(band).as_slice());
        hasher.write(token.as_bytes());
        hasher.write(end.as_slice());
        proof {
            assert(end@ =~= seq![0xffu8]);
            assert(hasher@ =~= seq![
                u64_bytes(self.seed),
                usize_bytes(band),
                encode_utf8(token@),
                seq![0xffu8],
            ]);
        }
        hasher.finish()
    }

    /// Add a token's contribution to the vector. Each token contributes one
    /// hit per band, up or down, each at a deterministic position.
    fn accumulate(&self, token: &str, acc: &mut Vec<i32>)
        requires
            self.spec_dim() > 0,
            old(acc)@.len() == self.spec_dim(),
        ensures
            final(acc)@ == with_feature(
                old(acc)@,
                self.spec_seed(),
                self.bands(),
                token@,
            ),
            final(acc)@.len() == self.spec_dim(),
    {
        let mut band: usize = 0;
        while band < self.hash_bands
            invariant
                band <= self.hash_bands,
                self.spec_dim() > 0,
                acc@.len() == self.dim,
                acc@ == with_feature(old(acc)@, self.spec_seed(), band as nat, token@),
            decreases self.hash_bands - band,
        {
            let h: u64 = self.token_hash(token, band);
            let pos: usize = to_low_word(h) % self.dim;
            let v: i32 = acc[pos];
            let up = (h / 0x1_0000_0000) % 2 == 0;
            let after: i32 = if up {
                if v < MAX_HITS {
                    v + 1
                } else {
                    v
                }
            } else if v > -MAX_HITS {
                v - 1
            } else {
                v
            };
            acc[pos] = after;
            band = band + 1;
        }
    }

    /// The words that count.
    fn counted_words(&self, words: Vec<String>) -> (counted: Vec<String>)
        ensures
            texts_of(counted@) == self.counted(texts_of(words@)),
    {
        if !self.drop_stopwords {
            return words;
        }
        let ghost all = texts_of(words@);
        let mut counted: Vec<String> = Vec::new();
        let mut i: usize = 0;
        assert(all.take(0) =~= Seq::empty());
        assert(texts_of(counted@) =~= Seq::empty());
        while i < words.len()
            invariant
                i <= words@.len(),
                all == texts_of(words@),
                texts_of(counted@) == without_stop_words(all.take(i as int)),
            decreases words@.len() - i,
        {
            let ghost before = counted@;
            assert(all.take(i + 1).drop_last() =~= all.take(i as int));
            assert(all.take(i + 1).last() == words@[i as int]@);
            if !is_stopword(words[i].as_str()) {
                counted.push(words[i].clone());
                assert(texts_of(counted@) =~= texts_of(before).push(words@[i as int]@));
            }
            i = i + 1;
        }
        assert(all.take(i as int) =~= all);
        counted
    }

    /// The vector of a text before it is scaled to unit length: the hits at
    /// each position, counted up and down.
    pub fn embed(&self, text: &str) -> (v: Vec<i32>)
        requires
            self.spec_dim() > 0,
        ensures
            v@ == self.vector(words_in(text@)),
            v@.len() == self.spec_dim(),
    {
        self.embed_words(tokenize(text))
    }

    /// The vector of a text with the given words.
    pub fn embed_words(&self, words: Vec<String>) -> (v: Vec<i32>)
        requires
            self.spec_dim() > 0,
        ensures
            v@ == self.vector(texts_of(words@)),
            v@.len() == self.spec_dim(),
    {
        let ghost (seed, bands) = (self.spec_seed(), self.bands());
        let counted = self.counted_words(words);
        let ghost all = texts_of(counted@);
        let ghost zeros = Seq::new(self.spec_dim(), |i: int| 0i32);
        let mut acc: Vec<i32> = Vec::new();
        let mut i: usize = 0;
        while i < self.dim
            invariant
                i <= self.dim,
                acc@ == Seq::new(i as nat, |j: int| 0i32),
            decreases self.dim - i,
        {
            acc.push(0);
            i = i + 1;
            assert(acc@ =~= Seq::new(i as nat, |j: int| 0i32));
        }
        let mut i: usize = 0;
        assert(all.take(0) =~= Seq::empty());
        while i < counted.len()
            invariant
                i <= counted@.len(),
                self.spec_dim() > 0,
                seed == self.spec_seed(),
                bands == self.bands(),
                all == texts_of(counted@),
                acc@.len() == self.spec_dim(),
                acc@ == with_features(zeros, seed, bands, all.take(i as int)),
            decreases counted@.len() - i,
        {
            assert(all.take(i + 1).drop_last() =~= all.take(i as int));
            assert(all.take(i + 1).last() == counted@[i as int]@);
            self.accumulate(counted[i].as_str(), &mut acc);
            i = i + 1;
        }
        assert(all.take(i as int) =~= all);
        if self.use_bigrams {
            let ghost pairs = bigrams(all);
            let mut i: usize = 1;
            assert(all + pairs.take(0) =~= all);
            while i < counted.len()
                invariant
                    1 <= i,
                    i <= counted@.len() || i == 1,
                    self.spec_dim() > 0,
                    seed == self.spec_seed(),
                    bands == self.bands(),
                    all == texts_of(counted@),
                    pairs == bigrams(all),
                    acc@.len() == self.spec_dim(),
                    acc@ == with_features(zeros, seed, bands, all + pairs.take(i - 1)),
                decreases counted@.len() - i,
            {
                let mut bigram = counted[i - 1].clone();
                bigram.push('_');
                bigram.append(counted[i].as_str());
                proof {
                    assert(all[i - 1] == counted@[i - 1]@ && all[i as int] == counted@[i as int]@);
                    assert((all + pairs.take(i as int)).drop_last() =~= all + pairs.take(i - 1));
                    assert((all + pairs.take(i as int)).last() == pairs[i - 1]);
                    assert(bigram@ =~= pairs[i - 1]);
                }
                self.accumulate(bigram.as_str(), &mut acc);
                i = i + 1;
            }
            assert(all + pairs.take(i - 1) =~= all + pairs);
        }
        acc
    }

    /// The signature of a text. The vector must have 256 components, and a bit
    /// is set for each that is not negative.
    pub fn embed_to_signature(&self, text: &str) -> (r: Result<BinarySignature, PrimdError>)
        requires
            self.spec_dim() > 0,
        ensures
            match r {
                Ok(sig) => self.spec_dim() == 256 && holds_signs(
                    sig,
                    signs_of(self.vector(words_in(text@))),
                ),
                Err(e) => self.spec_dim() != 256 && e == (PrimdError::InvalidDimension {
                    expected: 256,
                    got: self.spec_dim() as usize,
                }),
            },
    {
        let v = self.embed(text);
        let signs = not_negative(&v);
        quantize_direct(signs.as_slice())
    }
}

/// Which components are not negative.
pub open spec fn signs_of(v: Seq<i32>) -> Seq<bool> {
    v.map_values(|x: i32| x >= 0)
}

/// Which components are not negative.
pub fn not_negative(v: &Vec<i32>) -> (signs: Vec<bool>)
    ensures
        signs@ == signs_of(v@),
{
    let mut signs: Vec<bool> = Vec::new();
    let mut i: usize = 0;
    while i < v.len()
        invariant
            i <= v@.len(),
            signs@ == signs_of(v@).take(i as int),
        decreases v@.len() - i,
    {
        signs.push(v[i] >= 0);
        i = i + 1;
        assert(signs@ =~= signs_of(v@).take(i as int));
    }
    assert(signs@ =~= signs_of(v@));
    signs
}

/// A text without words is embedded as zero.
pub proof fn lemma_no_words(e: HashedEmbedder)
    ensures
        e.vector(Seq::empty()) == Seq::new(e.spec_dim(), |i: int| 0i32),
{
    let none = Seq::<Seq<char>>::empty();
    assert(e.counted(none) =~= none);
    assert(none + bigrams(none) =~= none);
}

/// What the hits of a feature add up to at a position.
pub open spec fn hits_at(dim: nat, seed: u64, bands: nat, feature: Seq<char>, p: int) -> int
    decreases bands,
{
    if bands == 0 {
        0
    } else {
        let h = feature_hash(seed, (bands - 1) as nat, feature);
        hits_at(dim, seed, (bands - 1) as nat, feature, p) + if low_word(h) % dim as int == p {
            if (h as int / 0x1_0000_0000) % 2 == 0 {
                1int
            } else {
                -1int
            }
        } else {
            0int
        }
    }
}

/// What the hits of all the features add up to at a position.
spec fn all_hits_at(dim: nat, seed: u64, bands: nat, features: Seq<Seq<char>>, p: int) -> int
    decreases features.len(),
{
    if features.len() == 0 {
        0
    } else {
        all_hits_at(dim, seed, bands, features.drop_last(), p) + hits_at(
            dim,
            seed,
            bands,
            features.last(),
            p,
        )
    }
}

/// Far from the limit, the hits of a feature are added.
proof fn lemma_feature_adds(acc: Seq<i32>, seed: u64, bands: nat, feature: Seq<char>, most: nat)
    requires
        acc.len() > 0,
        forall|p: int| 0 <= p < acc.len() ==> -most <= #[trigger] acc[p] <= most,
        most + bands <= MAX_HITS,
    ensures
        with_feature(acc, seed, bands, feature).len() == acc.len(),
        forall|p: int|
            0 <= p < acc.len() ==> (#[trigger] with_feature(acc, seed, bands, feature)[p]) == acc[p]
                + hits_at(acc.len(), seed, bands, feature, p),
        forall|p: int|
            0 <= p < acc.len() ==> -(most + bands) <= (#[trigger] with_feature(
                acc,
                seed,
                bands,
                feature,
            )[p]) <= most + bands,
    decreases bands,
{
    if bands > 0 {
        lemma_feature_adds(acc, seed, (bands - 1) as nat, feature, most);
    }
}

/// Far from the limit, the hits of all the features are added.
proof fn lemma_features_add(dim: nat, seed: u64, bands: nat, features: Seq<Seq<char>>)
    requires
        dim > 0,
        features.len() * bands <= MAX_HITS,
    ensures
        ({
            let v = with_features(Seq::new(dim, |i: int| 0i32), seed, bands, features);
            &&& v.len() == dim
            &&& forall|p: int|
                0 <= p < dim ==> (#[trigger] v[p]) == all_hits_at(dim, seed, bands, features, p)
                    && -(features.len() * bands) <= v[p] <= features.len() * bands
        }),
    decreases features.len(),
{
    let none = Seq::new(dim, |i: int| 0i32);
    if features.len() > 0 {
        let init = features.drop_last();
        assert(features.len() * bands == init.len() * bands + bands) by (nonlinear_arith)
            requires
                features.len() == init.len() + 1,
        ;
        lemma_features_add(dim, seed, bands, init);
        let before = with_features(none, seed, bands, init);
        assert forall|p: int| 0 <= p < before.len() implies -(init.len() * bands)
            <= #[trigger] before[p] <= init.len() * bands by {}
        lemma_feature_adds(before, seed, bands, features.last(), (init.len() * bands) as nat);
    }
}

/// What hits add up to does not depend on the order of the features.
proof fn lemma_hits_unordered(
    dim: nat,
    seed: u64,
    bands: nat,
    a: Seq<Seq<char>>,
    b: Seq<Seq<char>>,
    p: int,
)
    requires
        a.to_multiset() == b.to_multiset(),
    ensures
        all_hits_at(dim, seed, bands, a, p) == all_hits_at(dim, seed, bands, b, p),
{
    let f = |feature: Seq<char>, sum: int| sum + hits_at(dim, seed, bands, feature, p);
    lemma_hits_fold(dim, seed, bands, a, p, 0);
    lemma_hits_fold(dim, seed, bands, b, p, 0);
    lemma_fold_right_permutation(a, b, f, 0);
}

proof fn lemma_hits_fold(
    dim: nat,
    seed: u64,
    bands: nat,
    features: Seq<Seq<char>>,
    p: int,
    sum: int,
)
    ensures
        features.fold_right(
            |feature: Seq<char>, sum: int| sum + hits_at(dim, seed, bands, feature, p),
            sum,
        ) == sum + all_hits_at(dim, seed, bands, features, p),
    decreases features.len(),
{
    if features.len() > 0 {
        lemma_hits_fold(
            dim,
            seed,
            bands,
            features.drop_last(),
            p,
            sum + hits_at(dim, seed, bands, features.last(), p),
        );
    }
}

/// Leaving out the stop words leaves the other words as often as they were.
proof fn lemma_without_stop_words(words: Seq<Seq<char>>)
    ensures
        without_stop_words(words).len() <= words.len(),
        forall|w: Seq<char>|
            without_stop_words(words).to_multiset().count(w) == if is_stop_word(w) {
                0
            } else {
                words.to_multiset().count(w)
            },
    decreases words.len(),
{
    broadcast use group_to_multiset_ensures;

    if words.len() > 0 {
        let init = words.drop_last();
        lemma_without_stop_words(init);
        assert(words =~= init.push(words.last()));
    } else {
        assert(words =~= Seq::empty());
    }
}

/// Without bigrams a text is embedded as the bag of its words: their order does
/// not matter. This is so for all texts that are too short to bring a
/// component to its limit.
pub proof fn lemma_bag_of_words(e: HashedEmbedder, a: Seq<Seq<char>>, b: Seq<Seq<char>>)
    requires
        e.spec_dim() > 0,
        !e.uses_bigrams(),
        a.to_multiset() == b.to_multiset(),
        a.len() * e.bands() <= MAX_HITS,
    ensures
        e.vector(a) == e.vector(b),
{
    broadcast use group_to_multiset_ensures;

    let (x, y) = (e.counted(a), e.counted(b));
    lemma_without_stop_words(a);
    lemma_without_stop_words(b);
    assert(x.to_multiset() =~= y.to_multiset());
    assert(x.len() == x.to_multiset().len() == y.len());
    assert(x.len() <= a.len());
    assert(x.len() * e.bands() <= a.len() * e.bands()) by (nonlinear_arith)
        requires
            x.len() <= a.len(),
    ;
    lemma_features_add(e.spec_dim(), e.spec_seed(), e.bands(), x);
    lemma_features_add(e.spec_dim(), e.spec_seed(), e.bands(), y);
    assert forall|p: int| 0 <= p < e.spec_dim() implies e.vector(a)[p] == e.vector(b)[p] by {
        lemma_hits_unordered(e.spec_dim(), e.spec_seed(), e.bands(), x, y, p);
    }
    assert(e.vector(a) =~= e.vector(b));
}

/// A feature hits once in every band: where the hash of the seed, the band and the
/// feature points to, as a machine word modulo the dimension, and up or down by bit 32
/// of the hash. What the hits add up to at a position is by how many more of them go up
/// there than down.
pub proof fn lemma_hits_of_a_feature(dim: nat, seed: u64, bands: nat, feature: Seq<char>, p: int)
    ensures
        hits_at(dim, seed, bands, feature, p) == set_int_range(0, bands as int).filter(
            |b: int|
                {
                    let h = DefaultHasher::spec_finish(
                        seq![
                            u64_bytes(seed),
                            usize_bytes(b as usize),
                            encode_utf8(feature),
                            seq![0xffu8],
                        ],
                    ) as int;
                    let word = if usize::MAX == 0xffff_ffff {
                        h % 0x1_0000_0000
                    } else {
                        h
                    };
                    word % dim as int == p && (h / 0x1_0000_0000) % 2 == 0
                },
        ).len() - set_int_range(0, bands as int).filter(
            |b: int|
                {
                    let h = DefaultHasher::spec_finish(
                        seq![
                            u64_bytes(seed),
                            usize_bytes(b as usize),
                            encode_utf8(feature),
                            seq![0xffu8],
                        ],
                    ) as int;
                    let word = if usize::MAX == 0xffff_ffff {
                        h % 0x1_0000_0000
                    } else {
                        h
                    };
                    word % dim as int == p && (h / 0x1_0000_0000) % 2 != 0
                },
        ).len(),
{
    lemma_hits_by_band(dim, seed, bands, feature, p);
    assert(hits_up(dim, seed, bands, feature, p) =~= set_int_range(0, bands as int).filter(
        |b: int|
            {
                let h = DefaultHasher::spec_finish(
                    seq![
                        u64_bytes(seed),
                        usize_bytes(b as usize),
                        encode_utf8(feature),
                        seq![0xffu8],
                    ],
                ) as int;
                let word = if usize::MAX == 0xffff_ffff {
                    h % 0x1_0000_0000
                } else {
                    h
                };
                word % dim as int == p && (h / 0x1_0000_0000) % 2 == 0
            },
    ));
    assert(hits_down(dim, seed, bands, feature, p) =~= set_int_range(0, bands as int).filter(
        |b: int|
            {
                let h = DefaultHasher::spec_finish(
                    seq![
                        u64_bytes(seed),
                        usize_bytes(b as usize),
                        encode_utf8(feature),
                        seq![0xffu8],
                    ],
                ) as int;
                let word = if usize::MAX == 0xffff_ffff {
                    h % 0x1_0000_0000
                } else {
                    h
                };
                word % dim as int == p && (h / 0x1_0000_0000) % 2 != 0
            },
    ));
}

/// The bands in which a feature hits a position upwards.
spec fn hits_up(dim: nat, seed: u64, bands: nat, feature: Seq<char>, p: int) -> Set<int> {
    set_int_range(0, bands as int).filter(
        |b: int|
            {
                let h = feature_hash(seed, b as nat, feature);
                low_word(h) % dim as int == p && (h as int / 0x1_0000_0000) % 2 == 0
            },
    )
}

/// The bands in which a feature hits a position downwards.
spec fn hits_down(dim: nat, seed: u64, bands: nat, feature: Seq<char>, p: int) -> Set<int> {
    set_int_range(0, bands as int).filter(
        |b: int|
            {
                let h = feature_hash(seed, b as nat, feature);
                low_word(h) % dim as int == p && (h as int / 0x1_0000_0000) % 2 != 0
            },
    )
}

proof fn lemma_hits_by_band(dim: nat, seed: u64, bands: nat, feature: Seq<char>, p: int)
    ensures
        hits_at(dim, seed, bands, feature, p) == hits_up(dim, seed, bands, feature, p).len()
            - hits_down(dim, seed, bands, feature, p).len(),
    decreases bands,
{
    let (up, down) = (
        hits_up(dim, seed, bands, feature, p),
        hits_down(dim, seed, bands, feature, p),
    );
    lemma_int_range(0, bands as int);
    if bands == 0 {
        assert(up =~= Set::empty());
        assert(down =~= Set::empty());
    } else {
        let b = (bands - 1) as nat;
        lemma_int_range(0, b as int);
        lemma_hits_by_band(dim, seed, b, feature, p);
        let h = feature_hash(seed, b, feature);
        let (up_before, down_before) = (
            hits_up(dim, seed, b, feature, p),
            hits_down(dim, seed, b, feature, p),
        );
        if low_word(h) % dim as int != p {
            assert(up =~= up_before);
            assert(down =~= down_before);
        } else if (h as int / 0x1_0000_0000) % 2 == 0 {
            assert(up =~= up_before.insert(b as int));
            assert(down =~= down_before);
        } else {
            assert(up =~= up_before);
            assert(down =~= down_before.insert(b as int));
        }
    }
}

/// The words that count are all words, or all but the stop words, in their order.
pub proof fn lemma_counted_words(e: HashedEmbedder, words: Seq<Seq<char>>)
    ensures
        e.counted(words) == if e.drops_stopwords() {
            words.filter(|w: Seq<char>| !is_stop_word(w))
        } else {
            words
        },
{
    lemma_stop_words_left_out(words);
}

proof fn lemma_stop_words_left_out(words: Seq<Seq<char>>)
    ensures
        without_stop_words(words) == words.filter(|w: Seq<char>| !is_stop_word(w)),
    decreases words.len(),
{
    reveal(Seq::filter);
    if words.len() > 0 {
        lemma_stop_words_left_out(words.drop_last());
    }
}

/// What two lists of features hit adds up.
proof fn lemma_hits_concat(
    dim: nat,
    seed: u64,
    bands: nat,
    a: Seq<Seq<char>>,
    b: Seq<Seq<char>>,
    p: int,
)
    ensures
        all_hits_at(dim, seed, bands, a + b, p) == all_hits_at(dim, seed, bands, a, p)
            + all_hits_at(dim, seed, bands, b, p),
    decreases b.len(),
{
    if b.len() == 0 {
        assert(a + b =~= a);
    } else {
        assert((a + b).drop_last() =~= a + b.drop_last());
        lemma_hits_concat(dim, seed, bands, a, b.drop_last(), p);
    }
}

proof fn lemma_hits_sum(
    dim: nat,
    seed: u64,
    bands: nat,
    features: Seq<Seq<char>>,
    p: int,
    hits: Seq<int>,
    plus: spec_fn(int, int) -> int,
)
    requires
        hits.len() == features.len(),
        forall|i: int|
            0 <= i < hits.len() ==> #[trigger] hits[i] == hits_at(
                dim,
                seed,
                bands,
                features[i],
                p,
            ),
        forall|a: int, b: int| #[trigger] plus(a, b) == a + b,
    ensures
        all_hits_at(dim, seed, bands, features, p) == hits.fold_left(0int, plus),
    decreases features.len(),
{
    if features.len() > 0 {
        lemma_hits_sum(
            dim,
            seed,
            bands,
            features.drop_last(),
            p,
            hits.drop_last(),
            plus,
        );
    }
}

/// The vector of a text holds, at each position, the sum of the hits there of every word
/// that counts, and with bigrams of every pair of neighbours among these words as well.
/// This is so for all texts that are too short to bring a component to its limit.
pub proof fn lemma_vector_is_the_sum_of_hits(e: HashedEmbedder, words: Seq<Seq<char>>, p: int)
    requires
        0 <= p < e.spec_dim(),
        2 * e.counted(words).len() * e.bands() <= 16_777_216,
    ensures
        e.vector(words).len() == e.spec_dim(),
        e.vector(words)[p] == Seq::new(
            e.counted(words).len(),
            |i: int|
                hits_at(e.spec_dim(), e.spec_seed(), e.bands(), e.counted(words)[i], p),
        ).fold_left(0int, |a: int, b: int| a + b) + if e.uses_bigrams() && e.counted(words).len()
            > 0 {
            Seq::new(
                (e.counted(words).len() - 1) as nat,
                |i: int|
                    hits_at(
                        e.spec_dim(),
                        e.spec_seed(),
                        e.bands(),
                        e.counted(words)[i] + seq!['_'] + e.counted(words)[i + 1],
                        p,
                    ),
            ).fold_left(0int, |a: int, b: int| a + b)
        } else {
            0int
        },
{
    let (dim, seed, bands) = (e.spec_dim(), e.spec_seed(), e.bands());
    let counted = e.counted(words);
    let pairs = bigrams(counted);
    let features = features_of(e.uses_bigrams(), e.drops_stopwords(), words);
    assert(features.len() * bands <= MAX_HITS) by (nonlinear_arith)
        requires
            features.len() <= 2 * counted.len(),
            2 * counted.len() * bands <= MAX_HITS,
            bands >= 0,
    ;
    lemma_features_add(dim, seed, bands, features);
    lemma_hits_concat(dim, seed, bands, counted, pairs, p);
    lemma_hits_sum(
        dim,
        seed,
        bands,
        counted,
        p,
        Seq::new(
            e.counted(words).len(),
            |i: int|
                hits_at(e.spec_dim(), e.spec_seed(), e.bands(), e.counted(words)[i], p),
        ),
        |a: int, b: int| a + b,
    );
    if counted.len() > 0 {
        assert forall|i: int| 0 <= i < pairs.len() implies #[trigger] pairs[i] == counted[i]
            + seq!['_'] + counted[i + 1] by {
            assert(pairs[i] =~= counted[i] + seq!['_'] + counted[i + 1]);
        }
        lemma_hits_sum(
            dim,
            seed,
            bands,
            pairs,
            p,
            Seq::new(
                (e.counted(words).len() - 1) as nat,
                |i: int|
                    hits_at(
                        e.spec_dim(),
                        e.spec_seed(),
                        e.bands(),
                        e.counted(words)[i] + seq!['_'] + e.counted(words)[i + 1],
                        p,
                    ),
            ),
            |a: int, b: int| a + b,
        );
    }
}

/// One more word that counts adds its own hits, and with bigrams those of the pair that
/// it makes with the word before it. A stop word that does not count adds nothing.
pub proof fn lemma_word_added(e: HashedEmbedder, words: Seq<Seq<char>>, word: Seq<char>, p: int)
    requires
        0 <= p < e.spec_dim(),
        2 * (e.counted(words).len() + 1) * e.bands() <= 16_777_216,
    ensures
        e.drops_stopwords() && is_stop_word(word) ==> e.vector(words.push(word)) == e.vector(words),
        !(e.drops_stopwords() && is_stop_word(word)) ==> e.vector(words.push(word))[p] == e.vector(
            words,
        )[p] + hits_at(e.spec_dim(), e.spec_seed(), e.bands(), word, p) + if e.uses_bigrams()
            && e.counted(words).len() > 0 {
            hits_at(
                e.spec_dim(),
                e.spec_seed(),
                e.bands(),
                e.counted(words)[e.counted(words).len() - 1] + seq!['_'] + word,
                p,
            )
        } else {
            0int
        },
{
    let (dim, seed, bands) = (e.spec_dim(), e.spec_seed(), e.bands());
    let more = words.push(word);
    assert(more.drop_last() =~= words);
    let (x, y) = (e.counted(words), e.counted(more));
    if !(e.drops_stopwords() && is_stop_word(word)) {
        assert(y =~= x.push(word));
        let (f, g) = (
            features_of(e.uses_bigrams(), e.drops_stopwords(), words),
            features_of(e.uses_bigrams(), e.drops_stopwords(), more),
        );
        assert(f.len() * bands <= MAX_HITS && g.len() * bands <= MAX_HITS) by (nonlinear_arith)
            requires
                f.len() <= 2 * (x.len() + 1),
                g.len() <= 2 * (x.len() + 1),
                2 * (x.len() + 1) * bands <= MAX_HITS,
                bands >= 0,
        ;
        lemma_features_add(dim, seed, bands, f);
        lemma_features_add(dim, seed, bands, g);
        lemma_hits_concat(dim, seed, bands, x, bigrams(x), p);
        lemma_hits_concat(dim, seed, bands, y, bigrams(y), p);
        assert(y.drop_last() =~= x);
        if x.len() > 0 {
            let pair = x[x.len() - 1] + seq!['_'] + word;
            assert(x[x.len() - 1].push('_') + word =~= pair);
            assert(bigrams(y) =~= bigrams(x).push(pair));
            assert(bigrams(y).drop_last() =~= bigrams(x));
        } else {
            assert(bigrams(y) =~= bigrams(x));
        }
    }
}

/// The stop words.
pub proof fn lemma_stop_words(word: Seq<char>)
    ensures
        is_stop_word(word) <==> seq![
            "a"@, "an"@, "and"@, "are"@, "as"@, "at"@, "be"@, "by"@, "for"@, "from"@, "has"@,
            "have"@, "i"@, "in"@, "is"@, "it"@, "its"@, "of"@, "on"@, "or"@, "that"@, "the"@,
            "to"@, "was"@, "were"@, "will"@, "with"@, "you"@, "your"@, "this"@, "do"@, "does"@,
            "did"@, "can"@, "could"@, "would"@, "should"@, "if"@, "but"@, "not"@, "no"@, "my"@,
            "me"@, "we"@, "our"@, "us"@, "they"@, "them"@, "their"@, "he"@, "she"@, "his"@, "her"@,
            "him"@, "any"@, "all"@, "every"@, "some"@, "such"@, "than"@, "then"@, "there"@,
            "these"@, "those"@, "what"@, "when"@, "where"@, "which"@, "who"@, "why"@, "how"@,
            "so"@, "too"@, "very"@,
        ].contains(word),
{
    let texts = stop_words().map_values(|w: &'static str| w@);
    assert(texts =~= seq![
        "a"@, "an"@, "and"@, "are"@, "as"@, "at"@, "be"@, "by"@, "for"@, "from"@, "has"@, "have"@,
        "i"@, "in"@, "is"@, "it"@, "its"@, "of"@, "on"@, "or"@, "that"@, "the"@, "to"@, "was"@,
        "were"@, "will"@, "with"@, "you"@, "your"@, "this"@, "do"@, "does"@, "did"@, "can"@,
        "could"@, "would"@, "should"@, "if"@, "but"@, "not"@, "no"@, "my"@, "me"@, "we"@, "our"@,
        "us"@, "they"@, "them"@, "their"@, "he"@, "she"@, "his"@, "her"@, "him"@, "any"@, "all"@,
        "every"@, "some"@, "such"@, "than"@, "then"@, "there"@, "these"@, "those"@, "what"@,
        "when"@, "where"@, "which"@, "who"@, "why"@, "how"@, "so"@, "too"@, "very"@,
    ]);
    if is_stop_word(word) {
        let i = choose|i: int|
            0 <= i < stop_words().len() && (#[trigger] stop_words()[i])@ == word;
        assert(texts[i] == word);
    }
    if texts.contains(word) {
        let i = choose|i: int| 0 <= i < texts.len() && texts[i] == word;
        assert(stop_words()[i]@ == word);
    }
}

/// The components of a vector decide the bits of the signature, each by its sign.
pub proof fn lemma_signs_of(v: Seq<i32>)
    ensures
        signs_of(v).len() == v.len(),
        forall|i: int| 0 <= i < v.len() ==> #[trigger] signs_of(v)[i] == (v[i] >= 0),
{
}

/// A text of nothing but letters and numbers is one word, itself in lowercase.
pub proof fn lemma_one_word(text: Seq<char>)
    requires
        text.len() > 0,
        forall|i: int| 0 <= i < text.len() ==> alphanumeric(#[trigger] text[i]),
    ensures
        words_in(text) == seq![lowercased(text)],
{
    assert forall|i: int| 0 <= i < kept(text).len() implies #[trigger] kept(text)[i] by {
        assert(alphanumeric(text[i]));
    }
    lemma_whole_run(text, kept(text));
    assert(words_in(text) =~= seq![lowercased(text)]);
}

/// Any other character breaks a text in two: its words are those of what comes before,
/// followed by those of what comes behind.
pub proof fn lemma_words_break(a: Seq<char>, c: char, b: Seq<char>)
    requires
        !alphanumeric(c),
    ensures
        words_in(a.push(c) + b) == words_in(a) + words_in(b),
        words_in(Seq::empty()).len() == 0,
{
    lemma_runs_break(a, kept(a), c, b, kept(b));
    assert(kept(a.push(c) + b) =~= kept(a).push(false) + kept(b));
    assert(words_in(a.push(c) + b) =~= words_in(a) + words_in(b));
    let none = Seq::<char>::empty();
    lemma_whole_run(none, kept(none));
}

} // verus!
