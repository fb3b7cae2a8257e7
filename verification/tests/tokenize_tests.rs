use systematics_embeddings::embedding::{EmbedError, TokenSequence};

fn tiny_tokenizer() -> tokenizers::Tokenizer {
    let config = "{\"version\":\"1.0\",\"truncation\":null,\"padding\":null,\
        \"added_tokens\":[],\"normalizer\":null,\
        \"pre_tokenizer\":{\"type\":\"Whitespace\"},\"post_processor\":null,\
        \"decoder\":null,\"model\":{\"type\":\"WordLevel\",\
        \"vocab\":{\"[UNK]\":0,\"hello\":1,\"world\":2},\"unk_token\":\"[UNK]\"}}";
    tokenizers::Tokenizer::from_bytes(config.as_bytes()).unwrap()
}

fn encode(tok: &tokenizers::Tokenizer, text: &str) -> (Vec<u32>, Vec<u32>) {
    let enc = tok.encode(text, false).unwrap();
    (enc.get_ids().to_vec(), enc.get_attention_mask().to_vec())
}

#[test]
fn test_token_sequence_from_encoding() {
    let tok = tiny_tokenizer();
    let (ids, mask) = encode(&tok, "hello world");
    let seq = TokenSequence::new(ids, mask).unwrap();
    assert_eq!(seq.ids, vec![1, 2]);
    assert_eq!(seq.mask, vec![1, 1]);
}

#[test]
fn test_token_sequence_from_unknown_word() {
    let tok = tiny_tokenizer();
    let (ids, mask) = encode(&tok, "mystery");
    let seq = TokenSequence::new(ids, mask).unwrap();
    assert_eq!(seq.ids, vec![0]);
    assert_eq!(seq.mask, vec![1]);
}

#[test]
fn test_token_sequence_accepts_padding_mask() {
    let seq = TokenSequence::new(vec![5, 6, 7], vec![1, 1, 0]).unwrap();
    assert_eq!(seq.ids, vec![5, 6, 7]);
    assert_eq!(seq.mask, vec![1, 1, 0]);
}

#[test]
fn test_token_sequence_rejects_length_mismatch() {
    let r = TokenSequence::new(vec![1, 2, 3], vec![1, 1]);
    assert_eq!(r.unwrap_err(), EmbedError::Tokenization);
}

#[test]
fn test_token_sequence_rejects_bad_mask_value() {
    let r = TokenSequence::new(vec![1, 2], vec![1, 2]);
    assert_eq!(r.unwrap_err(), EmbedError::Tokenization);
}
