//! End-to-end tests on a prose corpus: full builds to a 1024-token
//! vocabulary, sequential and parallel, with round trips over the whole
//! text.

use bpe_tokenizer::generate;
use bpe_tokenizer::parallel_generate_with_base_vocabulary;

fn to_symbols(s: &str) -> Vec<u32> {
    s.chars().map(|c| c as u32).collect()
}

fn from_symbols(v: &[u32]) -> String {
    v.iter().map(|&x| char::from_u32(x).unwrap()).collect()
}

fn raw_text() -> String {
    let para1 = "The little harbour town woke slowly under a grey sky. Fishermen hauled their nets along the quay, gulls circled the masts, and the smell of salt and tar drifted between the crooked houses. By noon the market stalls were full of silver fish, round cheeses, and baskets of dark bread. ";
    let para2 = "Further inland the hills rolled away in long green waves, dotted with sheep and stone walls older than any map. A narrow road wound between them, past a mill whose wheel had not turned in forty years, toward the pass where the weather always changed without warning. ";
    let para3 = "In the evening the lamps came on one by one, first along the water, then up the steep lanes, until the whole town glimmered like a net full of sparks. Somewhere a fiddle started, a door banged, and the day folded itself away into the dark. ";
    let para4 = "Winter came early that year, sealing the pass with snow before the last carts had crossed. The town settled into its old rhythm of mending, salting, and waiting, while the sea turned the colour of iron and the days grew short. ";
    let para5 = "A travelling clockmaker took a room above the bakery and filled it with wheels, springs, and tiny brass suns. Children pressed their noses to his window to watch a mechanical ship rock on a painted ocean, forever leaving, never gone. ";
    let para6 = "When spring finally loosened the hills, the river ran loud for a week and carried off the footbridge by the tannery. Nobody mourned it much; the ferryman bought a new coat, and the mayor gave a speech about progress to eleven people and a dog. ";
    let para7 = "The lighthouse keeper kept a journal of wrecks that never happened: ships he had saved with nothing but a clean lamp and a steady hand. On the last page he drew the one storm he still dreamed about, the wave tall as the church tower. ";
    let para8 = "Market days brought strangers with coins from seven kingdoms, parrots that swore in three languages, and once a bear that danced badly but bowed beautifully. The constable fined its owner two shillings and asked for an encore. ";
    let para9 = "Long after midnight the tide rewrote the beach, erasing footprints, bottles, and the castle two children had defended all afternoon. By morning the sand lay smooth as paper, waiting patiently for the next small kingdom to rise and fall. ";
    let block1 = [para1, para2, para3, para4, para5, para6, para7, para8, para9].concat();
    let block2 = [para4, para9, para1, para8, para6, para2, para7, para5, para3].concat();
    let block3 = [para6, para8, para5, para9, para7, para4, para3, para2, para1].concat();
    let block4 = [para3, para7, para1, para5, para8, para2, para6, para4].concat();
    [block1, block2, block3, block4].concat()
}

#[test]
fn try_it_out() {
    let text = raw_text();
    let text_val: Vec<u32> = to_symbols(&text);
    println!("text len: {}", text_val.len());

    let tokenizer = generate(&text_val, 1024).unwrap();
    assert_eq!(tokenizer.lookup.len(), 1024);

    let token_buffer = tokenizer.tokenize(&text_val).unwrap();
    println!("tokenized length: {}", token_buffer.len());
    assert!(token_buffer.len() < text_val.len());

    let detokenized = tokenizer.detokenize(&token_buffer).unwrap();
    let decoded = from_symbols(&detokenized);
    assert_eq!(text, decoded);
}

#[test]
fn test_run_parallel() {
    let text = raw_text();
    let subsections: Vec<&str> = text.split(".").collect();
    println!("Nb Subsections: {}", subsections.len());

    let lens: usize = subsections.iter().map(|s| s.len()).sum::<usize>();
    println!("avg len subsec: {}", lens / subsections.len());

    let subsections_syms: Vec<Vec<u32>> = subsections.iter().map(|s| to_symbols(s)).collect();
    let base_vocab: Vec<u32> = to_symbols(&text);

    let tokenizer =
        parallel_generate_with_base_vocabulary(subsections_syms, base_vocab, 1024).unwrap();
    assert_eq!(tokenizer.lookup.len(), 1024);

    let all_syms = to_symbols(&text);
    let token_buffer = tokenizer.tokenize(&all_syms).unwrap();
    println!("tokenized length: {}", token_buffer.len());

    let detokenized = tokenizer.detokenize(&token_buffer).unwrap();
    let decoded = from_symbols(&detokenized);
    assert_eq!(text, decoded);
}

#[test]
fn parallel_sequential_equivalence() {
    let text = raw_text();
    let corpus = to_symbols(&text);
    let sequential = generate(&corpus, 300).unwrap();
    let parallel =
        parallel_generate_with_base_vocabulary(vec![corpus.clone()], corpus.clone(), 300).unwrap();
    assert_eq!(sequential.lookup, parallel.lookup);
}

#[test]
fn alphabet_ids_come_first() {
    let text = raw_text();
    let corpus = to_symbols(&text);
    let tokenizer = generate(&corpus, 200).unwrap();

    let mut alphabet: Vec<u32> = Vec::new();
    for &c in &corpus {
        if !alphabet.contains(&c) {
            alphabet.push(c);
        }
    }
    assert!(alphabet.len() < 200);
    for (i, &c) in alphabet.iter().enumerate() {
        assert_eq!(tokenizer.lookup[i], vec![c]);
    }
    for i in alphabet.len()..200 {
        assert!(tokenizer.lookup[i].len() >= 2);
    }
}
