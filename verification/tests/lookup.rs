use slot_lookup::lookup::{
    on_signatures, on_transaction, parse_invocation, start_lookup, LookupError, SignaturesOutcome,
    Step, TransactionOutcome,
};

fn arg(s: &str) -> Vec<u8> {
    s.as_bytes().to_vec()
}

#[test]
fn usage_error_on_wrong_argument_counts() {
    // Any count of positional arguments other than two (the program name is
    // args[0]) is a usage error.
    for total in [0usize, 1, 2, 4, 5, 9] {
        let args: Vec<Vec<u8>> = (0..total).map(|i| arg(&format!("a{}", i))).collect();
        assert_eq!(parse_invocation(args), Err(LookupError::Usage));
    }
}

#[test]
fn invocation_accepts_exactly_two_arguments() {
    let args = vec![arg("lookup"), arg("https://example-node.test"), arg("id")];
    let inv = parse_invocation(args).expect("two arguments");
    assert_eq!(inv.endpoint, arg("https://example-node.test"));
    assert_eq!(inv.program_text, arg("id"));
}

#[test]
fn empty_signature_history_fails_lookup() {
    let step = on_signatures(SignaturesOutcome::Listed(vec![]));
    assert_eq!(step, Step::Failed(LookupError::NoTransactionsFound));
}

#[test]
fn oldest_signature_is_fetched_and_its_slot_returned() {
    // The service lists newest first; only the oldest may be fetched.
    let sig_newest = bs58::encode(&[1u8; 64]).into_string().into_bytes();
    let sig_mid = bs58::encode(&[2u8; 64]).into_string().into_bytes();
    let sig_oldest = bs58::encode(&[3u8; 64]).into_string().into_bytes();
    let step = on_signatures(SignaturesOutcome::Listed(vec![sig_newest, sig_mid, sig_oldest]));
    match step {
        Step::FetchTransaction(s) => assert_eq!(s.bytes, vec![3u8; 64]),
        other => panic!("expected a transaction fetch, got {:?}", other),
    }
    // The stub maps the oldest signature to slot 42.
    assert_eq!(on_transaction(TransactionOutcome::Confirmed(42)), Step::Done(42));
}

#[test]
fn missing_transaction_fails_lookup() {
    assert_eq!(
        on_transaction(TransactionOutcome::Missing),
        Step::Failed(LookupError::TransactionNotFound)
    );
}

#[test]
fn malformed_identifier_fails_before_any_fetch() {
    // Bytes outside the alphabet: the step is already a failure, so the
    // driver never reaches a remote call.
    let step = start_lookup(&arg("not-base58-0OIl"));
    assert_eq!(step, Step::Failed(LookupError::IdentifierParse));
    // Valid base-58 text of the wrong decoded length fails the same way.
    let step = start_lookup(&arg("abc"));
    assert_eq!(step, Step::Failed(LookupError::IdentifierParse));
}

#[test]
fn identifier_of_wrong_decoded_length_is_rejected() {
    // Well-formed base-58 text that stands for 33 bytes, not 32.
    let text = bs58::encode(&[1u8; 33]).into_string().into_bytes();
    assert_eq!(start_lookup(&text), Step::Failed(LookupError::IdentifierParse));
}

#[test]
fn malformed_listed_signature_fails_lookup() {
    let step = on_signatures(SignaturesOutcome::Listed(vec![arg("abc")]));
    assert_eq!(step, Step::Failed(LookupError::MalformedSignature));
}

#[test]
fn transport_failures_are_network_errors() {
    assert_eq!(
        on_signatures(SignaturesOutcome::Unreachable),
        Step::Failed(LookupError::Network)
    );
    assert_eq!(
        on_transaction(TransactionOutcome::Unreachable),
        Step::Failed(LookupError::Network)
    );
}

#[test]
fn whole_lookup_against_a_stub() {
    // Endpoint "https://example-node.test", the all-zero identifier, one
    // listed signature whose detail slot is 100: the lookup ends in 100.
    let args = vec![
        arg("lookup"),
        arg("https://example-node.test"),
        arg("11111111111111111111111111111111"),
    ];
    let inv = parse_invocation(args).expect("two arguments");
    let program = match start_lookup(&inv.program_text) {
        Step::FetchSignatures(p) => p,
        other => panic!("expected a signature listing, got {:?}", other),
    };
    assert_eq!(program.bytes, vec![0u8; 32]);
    let sig = bs58::encode(&[7u8; 64]).into_string().into_bytes();
    let step = on_signatures(SignaturesOutcome::Listed(vec![sig]));
    let signature = match step {
        Step::FetchTransaction(s) => s,
        other => panic!("expected a transaction fetch, got {:?}", other),
    };
    assert_eq!(signature.bytes, vec![7u8; 64]);
    assert_eq!(on_transaction(TransactionOutcome::Confirmed(100)), Step::Done(100));
}
