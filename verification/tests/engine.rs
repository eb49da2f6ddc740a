use merkle_trie::rpc::engine::ExchangeCapabilitiesRequest;
use merkle_trie::rpc::{RpcErr, RpcHandler, RpcRequest, RpcRequestId};
use serde_json::Value;

fn names() -> ExchangeCapabilitiesRequest {
    vec![
        "engine_newPayloadV3".to_string(),
        String::new(),
        "engine_\"\u{e9}".to_string(),
    ]
}

fn array_of(names: &[&str]) -> Value {
    Value::Array(names.iter().map(|name| Value::String(name.to_string())).collect())
}

fn parse(params: Option<Vec<Value>>) -> Result<ExchangeCapabilitiesRequest, RpcErr> {
    RpcHandler::parse(&params)
}

#[test]
fn a_request_holds_the_names() {
    let request: RpcRequest = names().into();
    assert!(matches!(request.id, RpcRequestId::Number(1)));
    assert_eq!(request.jsonrpc, "2.0");
    assert_eq!(request.method, "engine_exchangeCapabilities");
    assert_eq!(
        request.params,
        Some(vec![array_of(&["engine_newPayloadV3", "", "engine_\"\u{e9}"])]),
    );
}

#[test]
fn a_request_is_read_back() {
    let request: RpcRequest = names().into();
    assert_eq!(parse(request.params), Ok(names()));
    let request: RpcRequest = ExchangeCapabilitiesRequest::new().into();
    assert_eq!(parse(request.params), Ok(vec![]));
}

#[test]
fn the_answer_is_the_list_of_names() {
    assert_eq!(
        names().handle(),
        Ok(array_of(&["engine_newPayloadV3", "", "engine_\"\u{e9}"])),
    );
    assert_eq!(parse(Some(vec![names().handle().unwrap()])), Ok(names()));
}

#[test]
fn only_the_first_parameter_counts() {
    let params = vec![array_of(&["a", "b"]), Value::Null];
    assert_eq!(parse(Some(params)), Ok(vec!["a".to_string(), "b".to_string()]));
    let params = vec![Value::Null, array_of(&["a", "b"])];
    assert_eq!(parse(Some(params)), Err(RpcErr::BadParams));
}

#[test]
fn what_is_no_list_of_strings_is_refused() {
    assert_eq!(parse(None), Err(RpcErr::BadParams));
    assert_eq!(parse(Some(vec![])), Err(RpcErr::BadParams));
    for value in [
        Value::Null,
        Value::Bool(true),
        Value::Number(1.into()),
        Value::String("a".to_string()),
        Value::Object(Default::default()),
        Value::Array(vec![Value::String("a".to_string()), Value::Null]),
        Value::Array(vec![array_of(&["a"])]),
    ] {
        assert_eq!(parse(Some(vec![value])), Err(RpcErr::BadParams));
    }
}

#[test]
fn a_request_is_the_first_in_the_version_in_use_by_default() {
    let request = RpcRequest::default();
    assert!(matches!(request.id, RpcRequestId::Number(1)));
    assert_eq!(request.jsonrpc, "2.0");
    assert_eq!(request.method, "");
    assert_eq!(request.params, None);
}
