use vstream::chunk::Chunk;
use vstream::envelope::{EnvelopeValue, MessageType, RequestMessage, RequestType};
use vstream::reassembler::{LogicalMessage, MessageReassembler};
use vstream::splitter::split;
use vstream::VstError;

#[test]
fn descriptor_single_chunk_is_three() {
    assert_eq!(Chunk::encode_chunk_x(0, 1), 3);
}

#[test]
fn descriptor_round_trip_first_and_continuations() {
    // First chunk of 5: low bit set, number carries the count.
    let c = Chunk {
        length: 24,
        chunk_x: Chunk::encode_chunk_x(0, 5),
        message_id: 7,
        message_length: 0,
        data: Vec::new(),
    };
    assert!(c.is_first_chunk());
    assert_eq!(c.get_chunk(), 5);
    assert_eq!(c.get_chunk_number(), 1);
    // Continuation at split position 2: low bit clear, number carries 2,
    // which is reassembly index 3.
    let c = Chunk { chunk_x: Chunk::encode_chunk_x(2, 5), ..c };
    assert!(!c.is_first_chunk());
    assert_eq!(c.get_chunk(), 2);
    assert_eq!(c.get_chunk_number(), 3);
}

#[test]
fn single_chunk_descriptor_regardless_of_payload() {
    for n in [0usize, 1, 23, 24, 25, 1000] {
        let c = Chunk::from_data(9, vec![0x5A; n]).unwrap();
        assert!(c.is_first_chunk());
        assert_eq!(c.get_chunk(), 1);
    }
}

#[test]
fn from_data_rejects_zero_message_id() {
    assert!(matches!(Chunk::from_data(0, vec![1, 2, 3]), Err(VstError::InvalidInput)));
}

#[test]
fn chunk_bytes_round_trip() {
    let payload = vec![1u8, 2, 3, 4, 5];
    let c = Chunk::from_data(11, payload.clone()).unwrap();
    let bytes = c.to_bytes();
    assert_eq!(bytes.len(), 24 + payload.len());
    let back = Chunk::from_bytes(&bytes).unwrap();
    assert_eq!(back.data(), &payload[..]);
    assert_eq!(back.length, 24 + payload.len() as u32);
    assert_eq!(back.message_id, 11);
    assert_eq!(back.message_length, payload.len() as u64);
    assert!(back.is_first_chunk());
}

#[test]
fn chunk_bytes_round_trip_empty_payload() {
    let c = Chunk::from_data(3, Vec::new()).unwrap();
    let bytes = c.to_bytes();
    assert_eq!(bytes.len(), 24);
    let back = Chunk::from_bytes(&bytes).unwrap();
    assert_eq!(back.data().len(), 0);
    assert_eq!(back.message_length, 0);
}

#[test]
fn decode_short_buffer_is_framing_error() {
    for n in 0..24usize {
        let buf = vec![0u8; n];
        assert!(matches!(Chunk::from_bytes(&buf), Err(VstError::Framing)));
    }
}

#[test]
fn decode_wrong_declared_length_is_framing_error() {
    let mut bytes = Chunk::from_data(5, vec![9u8; 8]).unwrap().to_bytes();
    // Corrupt the declared length field.
    bytes[0] = bytes[0].wrapping_add(1);
    assert!(matches!(Chunk::from_bytes(&bytes), Err(VstError::Framing)));
}

#[test]
fn split_rejects_bad_input() {
    assert!(matches!(split(0, &[1, 2], 1), Err(VstError::InvalidInput)));
    assert!(matches!(split(4, &[1, 2], 0), Err(VstError::InvalidInput)));
}

#[test]
fn split_empty_message_yields_one_chunk() {
    let chunks = split(8, &[], 16).unwrap();
    assert_eq!(chunks.len(), 1);
    assert!(chunks[0].is_first_chunk());
    assert_eq!(chunks[0].get_chunk(), 1);
    assert_eq!(chunks[0].data().len(), 0);
    assert_eq!(chunks[0].message_length, 0);
}

#[test]
fn split_exact_multiple_has_no_ragged_tail() {
    let data = vec![7u8; 40];
    let chunks = split(8, &data, 20).unwrap();
    assert_eq!(chunks.len(), 2);
    assert_eq!(chunks[0].data().len(), 20);
    assert_eq!(chunks[1].data().len(), 20);
}

#[test]
fn split_fifty_bytes_in_twenties_matches_scenario() {
    // message_id 42, 50 bytes of 0xAB, 20 bytes per chunk: three chunks
    // whose descriptors decode to (first, 3), (false, 1), (false, 2).
    let data = vec![0xABu8; 50];
    let chunks = split(42, &data, 20).unwrap();
    assert_eq!(chunks.len(), 3);
    assert!(chunks[0].is_first_chunk());
    assert_eq!(chunks[0].get_chunk(), 3);
    assert!(!chunks[1].is_first_chunk());
    assert_eq!(chunks[1].get_chunk(), 1);
    assert!(!chunks[2].is_first_chunk());
    assert_eq!(chunks[2].get_chunk(), 2);
    assert_eq!(chunks[0].data().len(), 20);
    assert_eq!(chunks[1].data().len(), 20);
    assert_eq!(chunks[2].data().len(), 10);
    for c in &chunks {
        assert_eq!(c.message_id, 42);
        assert_eq!(c.message_length, 50);
    }
    // Reassembling in order 0, 2, 1 yields the original payload.
    let mut r = MessageReassembler::new();
    assert!(r.accept(clone_chunk(&chunks[0])).unwrap().is_none());
    assert!(r.accept(clone_chunk(&chunks[2])).unwrap().is_none());
    let msg: LogicalMessage = r.accept(clone_chunk(&chunks[1])).unwrap().unwrap();
    assert_eq!(msg.message_id, 42);
    assert_eq!(msg.total_length, 50);
    assert_eq!(msg.payload, data);
}

fn clone_chunk(c: &Chunk) -> Chunk {
    Chunk {
        length: c.length,
        chunk_x: c.chunk_x,
        message_id: c.message_id,
        message_length: c.message_length,
        data: c.data.clone(),
    }
}

#[test]
fn reassemble_every_permutation_of_three_chunks() {
    let data: Vec<u8> = (0u8..=49).collect();
    let chunks = split(6, &data, 17).unwrap();
    assert_eq!(chunks.len(), 3);
    let orders: [[usize; 3]; 6] =
        [[0, 1, 2], [0, 2, 1], [1, 0, 2], [1, 2, 0], [2, 0, 1], [2, 1, 0]];
    for order in orders {
        let mut r = MessageReassembler::new();
        let mut delivered = None;
        for (step, &i) in order.iter().enumerate() {
            let out = r.accept(clone_chunk(&chunks[i])).unwrap();
            if step + 1 < order.len() {
                assert!(out.is_none());
            } else {
                delivered = out;
            }
        }
        let msg = delivered.expect("last chunk must complete the message");
        assert_eq!(msg.payload, data);
        assert_eq!(r.pending_messages(), 0);
    }
}

#[test]
fn reassemble_interleaved_messages() {
    let data_a = vec![1u8; 30];
    let data_b = vec![2u8; 25];
    let chunks_a = split(100, &data_a, 10).unwrap();
    let chunks_b = split(200, &data_b, 10).unwrap();
    let mut r = MessageReassembler::new();
    assert!(r.accept(clone_chunk(&chunks_a[0])).unwrap().is_none());
    assert!(r.accept(clone_chunk(&chunks_b[2])).unwrap().is_none());
    assert!(r.accept(clone_chunk(&chunks_a[2])).unwrap().is_none());
    assert!(r.accept(clone_chunk(&chunks_b[0])).unwrap().is_none());
    assert_eq!(r.pending_messages(), 2);
    let msg_a = r.accept(clone_chunk(&chunks_a[1])).unwrap().unwrap();
    assert_eq!(msg_a.message_id, 100);
    assert_eq!(msg_a.payload, data_a);
    let msg_b = r.accept(clone_chunk(&chunks_b[1])).unwrap().unwrap();
    assert_eq!(msg_b.message_id, 200);
    assert_eq!(msg_b.payload, data_b);
    assert_eq!(r.pending_messages(), 0);
}

#[test]
fn conflicting_first_chunks_are_a_protocol_error() {
    let mut r = MessageReassembler::new();
    let first_of_two = Chunk {
        length: 24 + 4,
        chunk_x: Chunk::encode_chunk_x(0, 2),
        message_id: 77,
        message_length: 8,
        data: vec![1, 2, 3, 4],
    };
    let first_of_three = Chunk {
        length: 24 + 4,
        chunk_x: Chunk::encode_chunk_x(0, 3),
        message_id: 77,
        message_length: 8,
        data: vec![1, 2, 3, 4],
    };
    assert!(r.accept(first_of_two).unwrap().is_none());
    assert!(matches!(r.accept(first_of_three), Err(VstError::Protocol)));
    // The partially built message was discarded.
    assert!(!r.is_pending(77));
}

#[test]
fn zero_message_id_chunk_is_a_protocol_error() {
    let mut r = MessageReassembler::new();
    let c = Chunk {
        length: 24,
        chunk_x: 3,
        message_id: 0,
        message_length: 0,
        data: Vec::new(),
    };
    assert!(matches!(r.accept(c), Err(VstError::Protocol)));
}

#[test]
fn duplicate_index_same_size_is_ignored() {
    let data = vec![9u8; 30];
    let chunks = split(12, &data, 10).unwrap();
    let mut r = MessageReassembler::new();
    assert!(r.accept(clone_chunk(&chunks[1])).unwrap().is_none());
    assert!(r.accept(clone_chunk(&chunks[1])).unwrap().is_none());
    assert!(r.accept(clone_chunk(&chunks[0])).unwrap().is_none());
    let msg = r.accept(clone_chunk(&chunks[2])).unwrap().unwrap();
    assert_eq!(msg.payload, data);
}

#[test]
fn duplicate_index_different_size_is_a_protocol_error() {
    let data = vec![9u8; 30];
    let chunks = split(12, &data, 10).unwrap();
    let mut r = MessageReassembler::new();
    assert!(r.accept(clone_chunk(&chunks[1])).unwrap().is_none());
    let mut shorter = clone_chunk(&chunks[1]);
    shorter.data.pop();
    shorter.length -= 1;
    assert!(matches!(r.accept(shorter), Err(VstError::Protocol)));
    assert!(!r.is_pending(12));
}

#[test]
fn conflicting_message_length_is_a_protocol_error() {
    let data = vec![4u8; 30];
    let chunks = split(13, &data, 10).unwrap();
    let mut r = MessageReassembler::new();
    assert!(r.accept(clone_chunk(&chunks[0])).unwrap().is_none());
    let mut liar = clone_chunk(&chunks[1]);
    liar.message_length = 31;
    assert!(matches!(r.accept(liar), Err(VstError::Protocol)));
}

#[test]
fn declared_length_mismatch_after_completion_is_a_protocol_error() {
    // A single-chunk message whose declared message length disagrees with
    // its payload.
    let mut r = MessageReassembler::new();
    let c = Chunk {
        length: 24 + 3,
        chunk_x: Chunk::encode_chunk_x(0, 1),
        message_id: 21,
        message_length: 99,
        data: vec![1, 2, 3],
    };
    assert!(matches!(r.accept(c), Err(VstError::Protocol)));
    assert!(!r.is_pending(21));
}

#[test]
fn continuation_beyond_declared_total_is_a_protocol_error() {
    let mut r = MessageReassembler::new();
    let first = Chunk {
        length: 24 + 2,
        chunk_x: Chunk::encode_chunk_x(0, 2),
        message_id: 31,
        message_length: 4,
        data: vec![1, 2],
    };
    let beyond = Chunk {
        length: 24 + 2,
        chunk_x: Chunk::encode_chunk_x(5, 9),
        message_id: 31,
        message_length: 4,
        data: vec![3, 4],
    };
    assert!(r.accept(first).unwrap().is_none());
    assert!(matches!(r.accept(beyond), Err(VstError::Protocol)));
}

#[test]
fn eviction_and_inspection() {
    let data = vec![8u8; 30];
    let chunks = split(55, &data, 10).unwrap();
    let mut r = MessageReassembler::new();
    assert!(!r.is_pending(55));
    assert_eq!(r.chunks_received(55), None);
    r.accept(clone_chunk(&chunks[0])).unwrap();
    r.accept(clone_chunk(&chunks[2])).unwrap();
    assert!(r.is_pending(55));
    assert_eq!(r.chunks_received(55), Some(2));
    r.evict(55);
    assert!(!r.is_pending(55));
    assert_eq!(r.pending_messages(), 0);
}

#[test]
fn default_envelope_value_array() {
    let env = RequestMessage::default();
    let arr = env.to_value_array();
    assert_eq!(arr.len(), 7);
    assert!(matches!(arr[0], EnvelopeValue::U32(1)));
    assert!(matches!(arr[1], EnvelopeValue::I32(1)));
    match &arr[2] {
        EnvelopeValue::Str(s) => assert_eq!(s, "_system"),
        _ => panic!("field 2 must be the database name"),
    }
    assert!(matches!(arr[3], EnvelopeValue::I32(1)));
    match &arr[4] {
        EnvelopeValue::Str(s) => assert_eq!(s, "/_admin/echo"),
        _ => panic!("field 4 must be the request path"),
    }
    match &arr[5] {
        EnvelopeValue::StrMap(m) => assert!(m.is_empty()),
        _ => panic!("field 5 must be the parameter map"),
    }
    match &arr[6] {
        EnvelopeValue::StrMap(m) => assert!(m.is_empty()),
        _ => panic!("field 6 must be the meta map"),
    }
}

#[test]
fn envelope_codes_match_the_wire_discriminants() {
    assert_eq!(RequestType::Delete.code(), 0);
    assert_eq!(RequestType::Get.code(), 1);
    assert_eq!(RequestType::Post.code(), 2);
    assert_eq!(RequestType::Put.code(), 3);
    assert_eq!(RequestType::Patch.code(), 5);
    assert_eq!(MessageType::Request.code(), 1);
    assert_eq!(MessageType::FinalResponse.code(), 2);
    assert_eq!(MessageType::Response.code(), 3);
    assert_eq!(MessageType::Authentication.code(), 1000);
}

#[test]
fn envelope_encodes_through_the_value_encoder() {
    let env = RequestMessage::default();
    let bytes = env.to_bytes().expect("default envelope must encode");
    assert!(!bytes.is_empty());
    // The payload then frames and splits like any message.
    let chunks = split(19, &bytes, 1024).unwrap();
    assert_eq!(chunks.len(), 1);
    let mut r = MessageReassembler::new();
    let msg = r.accept(clone_chunk(&chunks[0])).unwrap().unwrap();
    assert_eq!(msg.payload, bytes);
}
