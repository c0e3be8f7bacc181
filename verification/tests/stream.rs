use cuicui_chirp::stream::Input;

#[test]
fn reset_undoes_reads() {
    let text = b"Root(width(10)) { Child() }";
    let mut input = Input::new(&text[..], ());
    input.next_token();
    let start = input.checkpoint();
    let (offset, rest, left) = (input.current_offset(), input.input_u8(), input.eof_offset());
    input.next_token();
    input.next_token();
    input.next_slice(3);
    input.next_token();
    assert_ne!(input.current_offset(), offset);
    input.reset(start);
    assert_eq!(input.current_offset(), offset);
    assert_eq!(input.input_u8(), rest);
    assert_eq!(input.eof_offset(), left);
}

#[test]
fn starting_at_keeps_state() {
    let text = b"a b c";
    let input = Input::new(&text[..], 7u32);
    let moved = input.starting_at(2);
    assert_eq!(moved.current_offset(), 2);
    assert_eq!(moved.input_u8(), b"b c");
    assert_eq!(moved.state, 7);
}
