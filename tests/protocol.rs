use pepper_core::protocol::{
    DeserializeError, Deserializer, RemedybgProcessorBreakpointAccessKind, RemedybgProtocolBreakpoint, RemedybgCommandKind, RemedybgCommandResult, RemedybgEvent,
    RemedybgId, RemedybgSourceLocationChangedReason, RemedybgStr,
};

#[test]
fn breakpoint_hit_round_trip() {
    let event = RemedybgEvent::BreakpointHit { breakpoint_id: RemedybgId(7) };
    let mut bytes = Vec::new();
    event.serialize(&mut bytes);
    assert_eq!(vec![0x58, 0x02, 7, 0, 0, 0], bytes);
    let mut d = Deserializer::new(bytes);
    match RemedybgEvent::deserialize(&mut d) {
        Ok(RemedybgEvent::BreakpointHit { breakpoint_id }) => assert_eq!(RemedybgId(7), breakpoint_id),
        _ => panic!("expected a breakpoint hit"),
    }
}

#[test]
fn zero_id_is_invalid() {
    let bytes = vec![0x58, 0x02, 0, 0, 0, 0];
    let mut d = Deserializer::new(bytes);
    assert!(matches!(RemedybgEvent::deserialize(&mut d), Err(DeserializeError::InvalidData)));
}

#[test]
fn short_input_is_insufficient() {
    let mut d = Deserializer::new(vec![0x58]);
    assert!(matches!(RemedybgEvent::deserialize(&mut d), Err(DeserializeError::InsufficientData)));
    let mut d = Deserializer::new(vec![0x58, 0x02, 1, 0]);
    assert!(matches!(RemedybgEvent::deserialize(&mut d), Err(DeserializeError::InsufficientData)));
}

#[test]
fn unknown_discriminant_is_invalid() {
    let mut d = Deserializer::new(vec![1, 0]);
    assert!(matches!(RemedybgEvent::deserialize(&mut d), Err(DeserializeError::InvalidData)));
    let mut d = Deserializer::new(vec![12, 0]);
    assert!(matches!(RemedybgCommandResult::deserialize(&mut d), Err(DeserializeError::InvalidData)));
    let mut d = Deserializer::new(vec![8, 0]);
    assert!(matches!(RemedybgCommandResult::deserialize(&mut d), Ok(RemedybgCommandResult::InvalidId)));
}

#[test]
fn source_location_round_trip() {
    let event = RemedybgEvent::SourceLocationChanged {
        filename: RemedybgStr(b"main.c".to_vec()),
        line_num: 42,
        reason: RemedybgSourceLocationChangedReason::StepOver,
    };
    let mut bytes = Vec::new();
    event.serialize(&mut bytes);
    assert_eq!(2 + 2 + 6 + 4 + 2, bytes.len());
    let mut d = Deserializer::new(bytes);
    match RemedybgEvent::deserialize(&mut d) {
        Ok(RemedybgEvent::SourceLocationChanged { filename, line_num, reason }) => {
            assert_eq!(b"main.c".to_vec(), filename.0);
            assert_eq!(42, line_num);
            assert_eq!(RemedybgSourceLocationChangedReason::StepOver, reason);
        }
        _ => panic!("expected a source location change"),
    }
}

#[test]
fn output_string_and_exit_round_trip() {
    let mut bytes = Vec::new();
    RemedybgEvent::OutputDebugString { string: RemedybgStr(b"hi".to_vec()) }.serialize(&mut bytes);
    RemedybgEvent::ExitProcess { exit_code: 0xdead_beef }.serialize(&mut bytes);
    let mut d = Deserializer::new(bytes);
    match RemedybgEvent::deserialize(&mut d) {
        Ok(RemedybgEvent::OutputDebugString { string }) => assert_eq!(b"hi".to_vec(), string.0),
        _ => panic!("expected a string"),
    }
    match RemedybgEvent::deserialize(&mut d) {
        Ok(RemedybgEvent::ExitProcess { exit_code }) => assert_eq!(0xdead_beef, exit_code),
        _ => panic!("expected an exit"),
    }
}

#[test]
fn command_codes_are_fixed() {
    let mut bytes = Vec::new();
    RemedybgCommandKind::StartDebugging.serialize(&mut bytes);
    RemedybgCommandKind::GetBreakpoint.serialize(&mut bytes);
    assert_eq!(vec![0x2d, 0x01, 0x64, 0x02], bytes);
    assert_eq!(304, RemedybgCommandKind::AttachToProcessByPid.code());
    assert_eq!(307, RemedybgCommandKind::StepIntoByLine.code());
    assert_eq!(312, RemedybgCommandKind::ContinueExecution.code());
    assert_eq!(600, RemedybgCommandKind::GetBreakpoints.code());
    assert_eq!(604, RemedybgCommandKind::AddBreakpointAtFilenameLine.code());
}

#[test]
fn breakpoints_decode_by_kind() {
    let mut d = Deserializer::new(vec![1, 2, 0, b'f', b'n', 9, 0, 0, 0]);
    match RemedybgProtocolBreakpoint::deserialize(&mut d) {
        Ok(RemedybgProtocolBreakpoint::FunctionName { function_name, overload_id }) => {
            assert_eq!(b"fn".to_vec(), function_name.0);
            assert_eq!(9, overload_id);
        }
        _ => panic!("expected a function breakpoint"),
    }
    let mut d = Deserializer::new(vec![2, 1, 0, b'a', 40, 0, 0, 0]);
    match RemedybgProtocolBreakpoint::deserialize(&mut d) {
        Ok(RemedybgProtocolBreakpoint::FilenameLine { filename, line_num }) => {
            assert_eq!(b"a".to_vec(), filename.0);
            assert_eq!(40, line_num);
        }
        _ => panic!("expected a file breakpoint"),
    }
    let mut d = Deserializer::new(vec![3, 1, 0, 0, 0, 0, 0, 0, 1]);
    match RemedybgProtocolBreakpoint::deserialize(&mut d) {
        Ok(RemedybgProtocolBreakpoint::Address { address }) => assert_eq!(0x0100_0000_0000_0001, address),
        _ => panic!("expected an address breakpoint"),
    }
    let mut d = Deserializer::new(vec![4, 1, 0, b'x', 8, 2]);
    match RemedybgProtocolBreakpoint::deserialize(&mut d) {
        Ok(RemedybgProtocolBreakpoint::Processor { addr_expression, num_bytes, access_kind }) => {
            assert_eq!(b"x".to_vec(), addr_expression.0);
            assert_eq!(8, num_bytes);
            assert_eq!(RemedybgProcessorBreakpointAccessKind::ReadWrite, access_kind);
        }
        _ => panic!("expected a processor breakpoint"),
    }
    let mut d = Deserializer::new(vec![4, 1, 0, b'x', 8, 7]);
    assert!(matches!(RemedybgProtocolBreakpoint::deserialize(&mut d), Err(DeserializeError::InvalidData)));
    let mut d = Deserializer::new(vec![5]);
    assert!(matches!(RemedybgProtocolBreakpoint::deserialize(&mut d), Err(DeserializeError::InvalidData)));
    let mut d = Deserializer::new(vec![1, 3, 0, b'a']);
    assert!(matches!(RemedybgProtocolBreakpoint::deserialize(&mut d), Err(DeserializeError::InsufficientData)));
}
