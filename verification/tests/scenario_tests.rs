//! Small concrete scenarios: exact vocabularies, encodings, error variants,
//! and the round-trip and idempotence laws on fixed inputs.

use bpe_tokenizer::generate;
use bpe_tokenizer::parallel_generate_with_base_vocabulary;
use bpe_tokenizer::Tokenizer;
use bpe_tokenizer::TokenizerError;

fn syms(s: &str) -> Vec<u32> {
    s.chars().map(|c| c as u32).collect()
}

#[test]
fn single_symbol_merge() {
    // alphabet {a}, corpus "aaaa", target 2: vocabulary {"a": 0, "aa": 1}
    let tokenizer = generate(&syms("aaaa"), 2).unwrap();
    assert_eq!(tokenizer.lookup.len(), 2);
    assert_eq!(tokenizer.lookup[0], syms("a"));
    assert_eq!(tokenizer.lookup[1], syms("aa"));

    let ids = tokenizer.tokenize(&syms("aaaa")).unwrap();
    assert_eq!(ids, vec![1usize, 1]);

    let decoded = tokenizer.detokenize(&vec![1usize, 1]).unwrap();
    assert_eq!(decoded, syms("aaaa"));
}

#[test]
fn pair_merge_wins_by_count() {
    // corpus "abab", target 3, singles {a: 0, b: 1}: round one sees "ab"
    // twice and "ba" once, so "ab" wins and becomes id 2
    let tokenizer = generate(&syms("abab"), 3).unwrap();
    assert_eq!(tokenizer.lookup.len(), 3);
    assert_eq!(tokenizer.lookup[0], syms("a"));
    assert_eq!(tokenizer.lookup[1], syms("b"));
    assert_eq!(tokenizer.lookup[2], syms("ab"));

    let ids = tokenizer.tokenize(&syms("abab")).unwrap();
    assert_eq!(ids, vec![2usize, 2]);
}

#[test]
fn empty_corpus_unreachable_target() {
    let empty: Vec<u32> = Vec::new();
    let r = generate(&empty, 1);
    assert!(matches!(r, Err(TokenizerError::UnreachableTarget)));
}

#[test]
fn empty_corpus_zero_target() {
    // target equals the (empty) alphabet size: the 0-token vocabulary
    let empty: Vec<u32> = Vec::new();
    let tokenizer = generate(&empty, 0).unwrap();
    assert_eq!(tokenizer.lookup.len(), 0);
}

#[test]
fn target_below_alphabet_size() {
    // the alphabet is always registered whole, even past the target
    let tokenizer = generate(&syms("ab"), 1).unwrap();
    assert_eq!(tokenizer.lookup.len(), 2);
    assert_eq!(tokenizer.lookup[0], syms("a"));
    assert_eq!(tokenizer.lookup[1], syms("b"));
}

#[test]
fn exhausted_corpus_unreachable_target() {
    // "abab" supports ids a, b, "ab", "abab"; a fifth token does not exist
    let r = generate(&syms("abab"), 5);
    assert!(matches!(r, Err(TokenizerError::UnreachableTarget)));
}

#[test]
fn unknown_symbol_on_encode() {
    let tokenizer = generate(&syms("abab"), 3).unwrap();
    let r = tokenizer.tokenize(&syms("abc"));
    assert!(matches!(r, Err(TokenizerError::UnknownSymbol)));
}

#[test]
fn unknown_token_id_on_decode() {
    let tokenizer = generate(&syms("abab"), 3).unwrap();
    let r = tokenizer.detokenize(&vec![0usize, 7]);
    assert!(matches!(r, Err(TokenizerError::UnknownTokenId)));
}

#[test]
fn monotonic_contiguous_ids() {
    // merge ids continue contiguously after the alphabet's ids
    let tokenizer = generate(&syms("abab"), 4).unwrap();
    assert_eq!(tokenizer.lookup.len(), 4);
    assert_eq!(tokenizer.lookup[0], syms("a"));
    assert_eq!(tokenizer.lookup[1], syms("b"));
    assert_eq!(tokenizer.lookup[2], syms("ab"));
    assert_eq!(tokenizer.lookup[3], syms("abab"));
}

#[test]
fn round_trip_on_alphabet_text() {
    let tokenizer = generate(&syms("abracadabra"), 8).unwrap();
    let x = syms("cabrada");
    let ids = tokenizer.tokenize(&x).unwrap();
    let decoded = tokenizer.detokenize(&ids).unwrap();
    assert_eq!(decoded, x);
}

#[test]
fn idempotent_reencode() {
    let tokenizer = generate(&syms("abracadabra"), 8).unwrap();
    let x = syms("barbarcad");
    let ids = tokenizer.tokenize(&x).unwrap();
    let decoded = tokenizer.detokenize(&ids).unwrap();
    let ids_again = tokenizer.tokenize(&decoded).unwrap();
    assert_eq!(ids, ids_again);
}

#[test]
fn greedy_longest_match() {
    // with "ab" and "abab" registered, encoding takes the longest span
    let tokenizer = generate(&syms("abab"), 4).unwrap();
    let ids = tokenizer.tokenize(&syms("ababab")).unwrap();
    assert_eq!(ids, vec![3usize, 2]);
}

#[test]
fn parallel_unknown_symbol_outside_base() {
    // a chunk symbol missing from the base alphabet aborts the build
    let chunks = vec![syms("abcabc")];
    let base = syms("ab");
    let r = parallel_generate_with_base_vocabulary(chunks, base, 4);
    assert!(matches!(r, Err(TokenizerError::UnknownSymbol)));
}

#[test]
fn parallel_chunked_pair_counts() {
    // two chunks: pairs never cross the chunk boundary
    let chunks = vec![syms("abab"), syms("abab")];
    let base = syms("ab");
    let tokenizer = parallel_generate_with_base_vocabulary(chunks, base, 3).unwrap();
    assert_eq!(tokenizer.lookup[2], syms("ab"));
}

#[test]
fn manual_registration_matches_encode() {
    // a tokenizer assembled by hand through the public registration API
    let mut tokenizer = Tokenizer::default();
    tokenizer.register(&syms("x"), 0);
    tokenizer.register(&syms("y"), 1);
    tokenizer.register(&syms("xy"), 2);
    let ids = tokenizer.tokenize(&syms("xyx")).unwrap();
    assert_eq!(ids, vec![2usize, 0]);
    let decoded = tokenizer.detokenize(&ids).unwrap();
    assert_eq!(decoded, syms("xyx"));
}
