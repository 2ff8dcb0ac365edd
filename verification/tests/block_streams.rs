//! Caller-owned stream states.
use lz4_rs::block::{AbiDecodeState, AbiStreamState, ABI_STREAM_PADDING_WORDS, U32_ENTRIES};
use lz4_rs::types::{
    LZ4_STREAMDECODE_ALIGN, LZ4_STREAMDECODE_SIZE, LZ4_STREAM_ALIGN, LZ4_STREAM_SIZE,
};

fn abi_state() -> AbiStreamState {
    AbiStreamState {
        hash_table: [0; U32_ENTRIES],
        dictionary: 0,
        dict_ctx: 0,
        current_offset: 0,
        table_type: 0,
        dict_size: 0,
        padding: [0; ABI_STREAM_PADDING_WORDS],
    }
}

#[test]
fn abi_stream_layouts_match_c() {
    assert_eq!(core::mem::size_of::<AbiStreamState>(), LZ4_STREAM_SIZE);
    assert_eq!(core::mem::align_of::<AbiStreamState>(), LZ4_STREAM_ALIGN);
    assert_eq!(core::mem::size_of::<AbiDecodeState>(), LZ4_STREAMDECODE_SIZE);
    assert_eq!(core::mem::align_of::<AbiDecodeState>(), LZ4_STREAMDECODE_ALIGN);
}

#[test]
fn abi_stream_renormalization_rescales_indices() {
    let mut state = abi_state();
    state.current_offset = 0x7fff_ffff;
    state.dictionary = 100_000;
    state.dict_size = 70_000;
    let delta = state.current_offset - 64 * 1024;
    state.hash_table[..3].copy_from_slice(&[delta - 1, delta, state.current_offset - 1]);
    state.renormalize(2);
    assert_eq!(state.current_offset, 64 * 1024);
    assert_eq!(state.dict_size, 64 * 1024);
    assert_eq!(state.dictionary, 104_464);
    assert_eq!(&state.hash_table[..3], &[0, 0, 65_535]);
}
