use kaleidoscope_focus::{chunk_plan, encode_request, flush_chunks, request_chunks};

#[test]
fn encode_no_args() {
    let args: Vec<String> = vec![];
    assert_eq!(encode_request("settings.version", &args), "settings.version\n");
}

#[test]
fn encode_with_args() {
    let args = vec!["1".to_string(), "2".to_string()];
    assert_eq!(encode_request("keymap.onlyCustom", &args), "keymap.onlyCustom 1 2\n");
}

#[test]
fn chunking_preserves_payload() {
    let args = vec!["0".to_string(), "1".to_string(), "2".to_string()];
    let whole = request_chunks("keymap.custom", &args, 0);
    let flat_whole: Vec<u8> = whole.concat();
    assert_eq!(flat_whole, b"keymap.custom 0 1 2\n".to_vec());
    for size in [1usize, 2, 3, 5, 32, 1000] {
        let chunks = request_chunks("keymap.custom", &args, size);
        for c in &chunks {
            assert!(c.len() <= size);
            assert!(!c.is_empty());
        }
        let flat: Vec<u8> = chunks.concat();
        assert_eq!(flat, flat_whole);
    }
}

#[test]
fn chunk_plan_splits_in_runs() {
    let data = vec![1u8, 2, 3, 4, 5, 6, 7];
    let chunks = chunk_plan(&data, 3);
    assert_eq!(chunks, vec![vec![1u8, 2, 3], vec![4u8, 5, 6], vec![7u8]]);
}

#[test]
fn chunk_size_zero_writes_whole_payload() {
    let data = vec![9u8, 8, 7];
    let chunks = chunk_plan(&data, 0);
    assert_eq!(chunks, vec![data.clone()]);
}

#[test]
fn flush_is_space_newline() {
    let chunks = flush_chunks(0);
    assert_eq!(chunks, vec![b" \n".to_vec()]);
    let paced = flush_chunks(1);
    assert_eq!(paced, vec![b" ".to_vec(), b"\n".to_vec()]);
}
