use notcraft::codec::encode::Encoder;
use notcraft::codec::{ListKind, NodeKind};

fn bytes_of<F: FnOnce(&mut Encoder)>(f: F) -> Vec<u8> {
    let mut encoder = Encoder::new();
    f(&mut encoder);
    encoder.into_bytes()
}

#[test]
fn node_tags_follow_the_format() {
    assert_eq!(NodeKind::Node.tag(), 0);
    assert_eq!(NodeKind::List.tag(), 1);
    assert_eq!(NodeKind::MapNode.tag(), 2);
    assert_eq!(NodeKind::Raw.tag(), 3);
    assert_eq!(NodeKind::String.tag(), 4);
    assert_eq!(NodeKind::Bool.tag(), 5);
    assert_eq!(NodeKind::UnsignedVarInt.tag(), 6);
    assert_eq!(NodeKind::SignedVarInt.tag(), 7);
    assert_eq!(NodeKind::Float32.tag(), 8);
    assert_eq!(NodeKind::Float64.tag(), 9);
    assert_eq!(ListKind::Verbatim.tag(), 0);
    assert_eq!(ListKind::RunLength.tag(), 1);
}

#[test]
fn unsigned_varints() {
    assert_eq!(bytes_of(|e| e.encode(&0u8)), vec![0x00]);
    assert_eq!(bytes_of(|e| e.encode(&127u16)), vec![0x7f]);
    assert_eq!(bytes_of(|e| e.encode(&128u16)), vec![0x80, 0x01]);
    assert_eq!(bytes_of(|e| e.encode(&300u32)), vec![0xac, 0x02]);
    assert_eq!(bytes_of(|e| e.encode(&u64::MAX)).len(), 10);
}

#[test]
fn signed_varints_carry_the_sign_in_the_last_byte() {
    assert_eq!(bytes_of(|e| e.encode(&0i32)), vec![0x00]);
    assert_eq!(bytes_of(|e| e.encode(&1i32)), vec![0x01]);
    assert_eq!(bytes_of(|e| e.encode(&-1i32)), vec![0x41]);
    assert_eq!(bytes_of(|e| e.encode(&63i8)), vec![0x3f]);
    assert_eq!(bytes_of(|e| e.encode(&64i16)), vec![0xc0, 0x00]);
    assert_eq!(bytes_of(|e| e.encode(&100i64)), vec![0xe4, 0x00]);
    assert_eq!(bytes_of(|e| e.encode(&-100i64)), vec![0xe4, 0x40]);
}

#[test]
fn strings_and_bools() {
    assert_eq!(bytes_of(|e| e.encode("ab")), vec![2, b'a', b'b']);
    assert_eq!(bytes_of(|e| e.encode("")), vec![0]);
    assert_eq!(bytes_of(|e| e.encode(&true)), vec![1]);
    assert_eq!(bytes_of(|e| e.encode(&false)), vec![0]);
}

#[test]
fn verbatim_list() {
    assert_eq!(
        bytes_of(|e| e.encode_verbatim_list(&[1u8, 2u8, 200u8])),
        vec![0, 3, 6, 1, 2, 0xc8, 0x01]
    );
}

#[test]
fn run_length_list() {
    assert_eq!(
        bytes_of(|e| e.encode_rle_list(&[5u8, 5, 5, 7])),
        vec![1, 6, 3, 5, 1, 7, 0]
    );
    assert_eq!(bytes_of(|e| e.encode_rle_list::<u8>(&[])), vec![1, 6, 0]);
    assert_eq!(
        bytes_of(|e| e.encode_rle_list_runs(&[(2usize, true), (1usize, false)])),
        vec![1, 5, 2, 1, 1, 0, 0]
    );
}

#[test]
fn map_node() {
    let bytes = bytes_of(|e| {
        let r: Result<(), String> = e.encode_map(|m| (m.entry("a").encode(&true).entry("n").encode(&3u8), Ok(())));
        assert_eq!(r, Ok(()));
    });
    assert_eq!(bytes, vec![1, b'a', 5, 1, 1, b'n', 6, 3, 0]);
}

#[test]
fn map_node_error_is_handed_back_without_terminator() {
    let bytes = bytes_of(|e| {
        let r: Result<(), String> = e.encode_map(|m| (m.entry("a").encode(&true), Err("stop".to_string())));
        assert_eq!(r, Err("stop".to_string()));
    });
    assert_eq!(bytes, vec![1, b'a', 5, 1]);
}

#[test]
fn nested_map_entry() {
    let bytes = bytes_of(|e| {
        let r: Result<(), String> = e.encode_map(|m| {
            let (m, inner) = m.entry("m").encode_map(|n| (n.entry("b").encode(&false), Ok(())));
            (m, inner)
        });
        assert_eq!(r, Ok(()));
    });
    assert_eq!(bytes, vec![1, b'm', 2, 1, b'b', 5, 0, 0, 0]);
}

#[test]
fn heightmaps_are_run_length_lists_of_heights() {
    let heightmap = notcraft::world::generation::SurfaceHeightmap::new(vec![5, 5, 7], 0);
    let direct = bytes_of(|e| e.encode_rle_list(&[5i32, 5, 7]));
    assert_eq!(bytes_of(|e| e.encode(&heightmap)), direct);
    assert_eq!(direct[0], 1);
    assert_eq!(direct[2], 2);
}
