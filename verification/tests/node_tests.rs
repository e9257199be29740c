use benchbencher::node::{judge_execution, listing_text, DiscoveryError, ExecFailure, Node};

#[test]
fn list_arguments_are_the_fixed_flags() {
    let node = Node::new("target/release/substrate".to_string());
    assert_eq!(
        node.list_args(),
        vec![
            "benchmark".to_string(),
            "--dev".to_string(),
            "--execution=wasm".to_string(),
            "--wasm-execution=compiled".to_string(),
            "--heap-pages=4096".to_string(),
            "--list".to_string(),
        ]
    );
}

#[test]
fn execute_arguments_name_the_unit_once() {
    let node = Node::new("node".to_string());
    assert_eq!(
        node.execute_args("foo", "bar"),
        vec![
            "benchmark".to_string(),
            "--dev".to_string(),
            "--execution=wasm".to_string(),
            "--wasm-execution=compiled".to_string(),
            "--heap-pages=4096".to_string(),
            "--pallet".to_string(),
            "foo".to_string(),
            "--extrinsic".to_string(),
            "bar".to_string(),
            "--repeat=1".to_string(),
        ]
    );
}

#[test]
fn listing_text_rejects_failed_invocations() {
    assert_eq!(
        listing_text(false, b"anything".to_vec()),
        Err(DiscoveryError::CommandFailed)
    );
}

#[test]
fn listing_text_rejects_invalid_utf8() {
    assert_eq!(
        listing_text(true, vec![0xff, 0xfe]),
        Err(DiscoveryError::InvalidUtf8)
    );
}

#[test]
fn listing_text_passes_valid_output_through() {
    assert_eq!(
        listing_text(true, b"header\nfoo, bar\n".to_vec()),
        Ok("header\nfoo, bar\n".to_string())
    );
}

#[test]
fn discovery_messages() {
    assert_eq!(
        DiscoveryError::CommandFailed.message(),
        "Command returned non zero status code"
    );
    assert_eq!(DiscoveryError::InvalidUtf8.message(), "Invalid UTF-8 in output");
}

#[test]
fn judge_execution_demands_success_and_silence() {
    assert_eq!(judge_execution(true, &Vec::new()), Ok(()));
    assert_eq!(judge_execution(false, &Vec::new()), Err(ExecFailure::NonZeroStatus));
    assert_eq!(judge_execution(false, &vec![1u8]), Err(ExecFailure::NonZeroStatus));
    assert_eq!(judge_execution(true, &vec![1u8]), Err(ExecFailure::UnexpectedStdout));
}
