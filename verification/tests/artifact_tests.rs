use plonky2x::artifact::{ArtifactData, Circuit, ProofData, ProvingBackend};
use plonky2x::error::CircuitError;
use plonky2x::io::{CircuitIO, PublicInput, PublicOutput};
use plonky2x::variables::{ByteVariable, Variable};

/// A backend that accepts everything and returns a fixed proof.
struct MockBackend {
    public_values: Vec<u64>,
    accept: bool,
}

impl ProvingBackend for MockBackend {
    fn prove(&self, _data: &ArtifactData, _input_values: &Vec<u64>) -> ProofData {
        ProofData {
            public_values: self.public_values.clone(),
            blob: Vec::new(),
        }
    }

    fn verify(&self, _data: &ArtifactData, _proof: &ProofData) -> bool {
        self.accept
    }
}

/// A backend whose cryptographic verification must never run.
struct ExplodingBackend;

impl ProvingBackend for ExplodingBackend {
    fn prove(&self, _data: &ArtifactData, _input_values: &Vec<u64>) -> ProofData {
        panic!("prove must not be reached");
    }

    fn verify(&self, _data: &ArtifactData, _proof: &ProofData) -> bool {
        panic!("cryptographic verification must not be reached");
    }
}

fn element_circuit() -> Circuit {
    Circuit {
        data: ArtifactData {
            digest: vec![1, 2, 3, 4],
            blob: vec![9, 9],
        },
        io: CircuitIO::Elements {
            input: vec![Variable(0), Variable(1)],
            output: vec![Variable(2)],
        },
    }
}

fn byte_var(base: u64) -> ByteVariable {
    ByteVariable {
        bits: (0..8).map(|j| Variable(base + j)).collect(),
    }
}

fn byte_circuit() -> Circuit {
    Circuit {
        data: ArtifactData {
            digest: vec![5, 6, 7, 8],
            blob: vec![1],
        },
        io: CircuitIO::Bytes {
            input: vec![byte_var(0), byte_var(8)],
            output: vec![byte_var(16)],
        },
    }
}

fn io_slots(io: &CircuitIO) -> (Vec<u64>, Vec<u64>) {
    match io {
        CircuitIO::Bytes { input, output } => (
            input.iter().flat_map(|b| b.bits.iter().map(|v| v.0)).collect(),
            output.iter().flat_map(|b| b.bits.iter().map(|v| v.0)).collect(),
        ),
        CircuitIO::Elements { input, output } => (
            input.iter().map(|v| v.0).collect(),
            output.iter().map(|v| v.0).collect(),
        ),
        CircuitIO::NoIo => (Vec::new(), Vec::new()),
    }
}

#[test]
fn test_serialize_with_field_io() {
    let circuit = element_circuit();
    let backend = MockBackend {
        public_values: vec![2, 2, 4],
        accept: true,
    };

    // Prove with a = 2, b = 2 and check the output is 4.
    let input = PublicInput::Elements(vec![2, 2]);
    let (proof, output) = circuit.prove(&backend, &input).unwrap();
    assert_eq!(output, PublicOutput::Elements(vec![4]));
    circuit.verify(&backend, &proof, &input, &output).unwrap();

    // Serialize, deserialize, and compare structure and identity.
    let bytes = circuit.serialize().unwrap();
    let old_id = circuit.id();
    let (old_in, old_out) = io_slots(&circuit.io);

    let restored = Circuit::deserialize(&bytes).unwrap();
    let new_id = restored.id();
    let (new_in, new_out) = io_slots(&restored.io);

    assert_eq!(old_id, new_id);
    assert_eq!(old_in.len(), new_in.len());
    assert_eq!(old_out.len(), new_out.len());
    assert_eq!(old_in, new_in);
    assert_eq!(old_out, new_out);
    assert_eq!(restored.data.digest, circuit.data.digest);
    assert_eq!(restored.data.blob, circuit.data.blob);

    // The same proof verifies against the deserialized artifact.
    restored.verify(&backend, &proof, &input, &output).unwrap();
}

#[test]
fn test_serialize_with_evm_io() {
    let circuit = byte_circuit();

    let bytes = circuit.serialize().unwrap();
    let old_id = circuit.id();
    let (old_in, old_out) = io_slots(&circuit.io);

    let restored = Circuit::deserialize(&bytes).unwrap();
    let new_id = restored.id();
    let (new_in, new_out) = io_slots(&restored.io);

    assert_eq!(old_id, new_id);
    assert_eq!(old_in.len(), new_in.len());
    assert_eq!(old_out.len(), new_out.len());
    assert_eq!(old_in, new_in);
    assert_eq!(old_out, new_out);

    // Byte grouping is preserved: two input bytes, one output byte.
    match &restored.io {
        CircuitIO::Bytes { input, output } => {
            assert_eq!(input.len(), 2);
            assert_eq!(output.len(), 1);
            assert!(input.iter().all(|b| b.bits.len() == 8));
        }
        _ => panic!("expected byte io"),
    }
}

#[test]
fn test_round_trip_no_io() {
    let circuit = Circuit {
        data: ArtifactData {
            digest: vec![0xdead, 0xbeef],
            blob: Vec::new(),
        },
        io: CircuitIO::NoIo,
    };
    let bytes = circuit.serialize().unwrap();
    let restored = Circuit::deserialize(&bytes).unwrap();
    assert_eq!(restored.data.digest, circuit.data.digest);
    assert!(matches!(restored.io, CircuitIO::NoIo));
}

#[test]
fn test_self_check_harness() {
    assert!(element_circuit().test_serializers().is_ok());
    assert!(byte_circuit().test_default_serializers().is_ok());
}

#[test]
fn test_id_exact_value() {
    let circuit = Circuit {
        data: ArtifactData {
            digest: vec![1, 2],
            blob: Vec::new(),
        },
        io: CircuitIO::NoIo,
    };
    // Big-endian bytes of [1, 2], hex-encoded, truncated to 22 characters.
    assert_eq!(circuit.id(), "0000000000000001000000");
    assert_eq!(circuit.id().len(), 22);
}

#[test]
fn test_deserialize_truncated_buffer() {
    let circuit = element_circuit();
    let bytes = circuit.serialize().unwrap();
    let truncated: Vec<u8> = bytes[..bytes.len() - 3].to_vec();
    assert_eq!(
        Circuit::deserialize(&truncated),
        Err(CircuitError::ShortRead)
    );
    assert_eq!(
        Circuit::deserialize(&Vec::new()),
        Err(CircuitError::ShortRead)
    );
}

#[test]
fn test_deserialize_unknown_tag() {
    let circuit = element_circuit();
    let mut bytes = circuit.serialize().unwrap();
    // inner bytes: 8 (digest len) + 32 (digest) + 8 (blob len) + 2 (blob),
    // so the io tag's little-endian word starts at 8 + 50.
    assert_eq!(bytes[58], 1);
    bytes[58] = 7;
    assert_eq!(
        Circuit::deserialize(&bytes),
        Err(CircuitError::UnknownIoTag)
    );
}

#[test]
fn test_verify_precheck_blocks_wrong_input() {
    let circuit = element_circuit();
    let proof = ProofData {
        public_values: vec![2, 2, 4],
        blob: Vec::new(),
    };
    // The backend would panic if cryptographic verification ran: a wrong
    // input must be rejected before it is invoked.
    let r = circuit.verify(
        &ExplodingBackend,
        &proof,
        &PublicInput::Elements(vec![2, 3]),
        &PublicOutput::Elements(vec![4]),
    );
    assert_eq!(r, Err(CircuitError::InputMismatch));

    let r = circuit.verify(
        &ExplodingBackend,
        &proof,
        &PublicInput::Elements(vec![2, 2]),
        &PublicOutput::Elements(vec![5]),
    );
    assert_eq!(r, Err(CircuitError::OutputMismatch));

    // A wrong contract kind is an input mismatch as well.
    let r = circuit.verify(
        &ExplodingBackend,
        &proof,
        &PublicInput::Bytes(vec![2, 2]),
        &PublicOutput::Elements(vec![4]),
    );
    assert_eq!(r, Err(CircuitError::InputMismatch));
}

#[test]
fn test_verify_crypto_rejection() {
    let circuit = element_circuit();
    let backend = MockBackend {
        public_values: vec![2, 2, 4],
        accept: false,
    };
    let proof = ProofData {
        public_values: vec![2, 2, 4],
        blob: Vec::new(),
    };
    let r = circuit.verify(
        &backend,
        &proof,
        &PublicInput::Elements(vec![2, 2]),
        &PublicOutput::Elements(vec![4]),
    );
    assert_eq!(r, Err(CircuitError::ProofRejected));
}

#[test]
fn test_verify_short_public_values() {
    let circuit = element_circuit();
    let proof = ProofData {
        public_values: vec![2, 2],
        blob: Vec::new(),
    };
    let r = circuit.verify(
        &ExplodingBackend,
        &proof,
        &PublicInput::Elements(vec![2, 2]),
        &PublicOutput::Elements(vec![4]),
    );
    assert_eq!(r, Err(CircuitError::ShortRead));
}

#[test]
fn test_byte_io_prove_and_verify() {
    let circuit = byte_circuit();
    // Bit wires, most significant first: 0x03, 0x05 in; 0x06 out.
    let mut pv = Vec::new();
    for b in [0x03u8, 0x05u8, 0x06u8] {
        for j in (0..8).rev() {
            pv.push(((b >> j) & 1) as u64);
        }
    }
    let backend = MockBackend {
        public_values: pv,
        accept: true,
    };
    let input = PublicInput::Bytes(vec![0x03, 0x05]);
    let (proof, output) = circuit.prove(&backend, &input).unwrap();
    assert_eq!(output, PublicOutput::Bytes(vec![0x06]));
    circuit.verify(&backend, &proof, &input, &output).unwrap();

    let r = circuit.verify(
        &ExplodingBackend,
        &proof,
        &PublicInput::Bytes(vec![0x03, 0x04]),
        &output,
    );
    assert_eq!(r, Err(CircuitError::InputMismatch));
}

#[test]
fn test_input_matches_io_kind() {
    assert!(matches!(
        element_circuit().input(),
        PublicInput::Elements(_)
    ));
    assert!(matches!(byte_circuit().input(), PublicInput::Bytes(_)));
}

#[test]
fn test_prove_succeeds_without_io() {
    // With no io contract, no public value is needed: prove succeeds for
    // every backend result.
    let circuit = Circuit {
        data: ArtifactData {
            digest: vec![1, 2],
            blob: Vec::new(),
        },
        io: CircuitIO::NoIo,
    };
    let backend = MockBackend {
        public_values: Vec::new(),
        accept: true,
    };
    let (proof, output) = circuit.prove(&backend, &PublicInput::NoIo).unwrap();
    assert_eq!(output, PublicOutput::NoIo);
    circuit
        .verify(&backend, &proof, &PublicInput::NoIo, &PublicOutput::NoIo)
        .unwrap();
}
