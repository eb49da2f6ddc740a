//! Requests of the engine interface.

use crate::rpc::json;
use crate::rpc::json::{from_value, to_value, JsonView};
use crate::rpc::{RpcErr, RpcHandler, RpcRequest, RpcRequestId};
use serde_json::Value;
use vstd::prelude::*;

verus! {

/// The methods that the other side can handle, by their names.
pub type ExchangeCapabilitiesRequest = Vec<String>;

/// What each of some values holds.
pub open spec fn params_view(params: Option<Vec<Value>>) -> Option<Seq<JsonView>> {
    match params {
        Some(values) => Some(Seq::new(values@.len(), |i: int| json::json_view(values@[i]))),
        None => None,
    }
}

/// The names that parameters make: the first of them must be an array of strings.
pub open spec fn capabilities(params: Option<Seq<JsonView>>) -> Result<Seq<Seq<char>>, RpcErr> {
    match params {
        Some(values) => if values.len() == 0 {
            Err(RpcErr::BadParams)
        } else {
            match values[0].as_texts() {
                Some(names) => Ok(names),
                None => Err(RpcErr::BadParams),
            }
        },
        None => Err(RpcErr::BadParams),
    }
}

/// Whether `request` is the exchange of capabilities with these names, and otherwise as requests
/// are by default.
pub open spec fn asks_with(request: RpcRequest, names: Seq<Seq<char>>) -> bool {
    &&& request.id == RpcRequestId::Number(1)
    &&& request.jsonrpc@ == "2.0"@
    &&& request.method@ == "engine_exchangeCapabilities"@
    &&& params_view(request.params) == Some(seq![JsonView::of_texts(names)])
}

/// Whether who gets `request` reads these names from its parameters.
pub open spec fn reads_back(request: RpcRequest, names: Seq<Seq<char>>) -> bool {
    capabilities(params_view(request.params)) == Ok::<Seq<Seq<char>>, RpcErr>(names)
}

impl vstd::std_specs::convert::IntoSpecImpl<RpcRequest> for ExchangeCapabilitiesRequest {
    open spec fn obeys_into_spec() -> bool {
        false
    }

    open spec fn into_spec(self) -> RpcRequest {
        arbitrary()
    }
}

impl Into<RpcRequest> for ExchangeCapabilitiesRequest {
    fn into(self) -> (request: RpcRequest)
        ensures
            asks_with(request, json::texts(self@)),
            reads_back(request, json::texts(self@)),
    {
        let params: Vec<Value> = vec![to_value(&self)];
        let request: RpcRequest = RpcRequest {
            method: "engine_exchangeCapabilities".to_string(),
            params: Some(params),
            ..RpcRequest::default()
        };
        assert(params_view(request.params)->0 =~= seq![JsonView::of_texts(json::texts(self@))]);
        proof {
            request_read_back(json::texts(self@));
        }
        request
    }
}

impl RpcHandler for ExchangeCapabilitiesRequest {
    fn parse(params: &Option<Vec<Value>>) -> (result: Result<ExchangeCapabilitiesRequest, RpcErr>)
        ensures
            match result {
                Ok(names) => capabilities(params_view(*params)) == Ok::<Seq<Seq<char>>, RpcErr>(
                    json::texts(names@),
                ),
                Err(e) => capabilities(params_view(*params)) == Err::<Seq<Seq<char>>, RpcErr>(e),
            },
    {
        match params {
            None => Err(RpcErr::BadParams),
            Some(values) => if values.len() == 0 {
                Err(RpcErr::BadParams)
            } else {
                match from_value(&values[0]) {
                    Ok(names) => Ok(names),
                    Err(_) => Err(RpcErr::BadParams),
                }
            },
        }
    }

    fn handle(&self) -> (result: Result<Value, RpcErr>)
        ensures
            result matches Ok(value) && json::json_view(value) == JsonView::of_texts(
                json::texts(self@),
            ),
            result matches Ok(value) && json::json_view(value).as_texts() == Some(
                json::texts(self@),
            ),
    {
        proof {
            json::texts_come_back(json::texts(self@));
        }
        Ok(to_value(self))
    }
}

/// Who gets a request reads from its parameters the names that it was made of.
pub proof fn request_read_back(names: Seq<Seq<char>>)
    ensures
        capabilities(Some(seq![JsonView::of_texts(names)])) == Ok::<Seq<Seq<char>>, RpcErr>(names),
{
    json::texts_come_back(names);
}

/// Every request for an exchange of capabilities names the method and has one parameter, the array
/// of all its names in their order; from these parameters the same names are read.
pub proof fn request_holds_its_names(request: RpcRequest, names: Seq<Seq<char>>)
    requires
        asks_with(request, names),
    ensures
        request.id == RpcRequestId::Number(1),
        request.jsonrpc@ == "2.0"@,
        request.method@ == "engine_exchangeCapabilities"@,
        request.params matches Some(params) && params@.len() == 1 && (json::json_view(params@[0])
            matches JsonView::List(items) && items.len() == names.len() && forall|i: int|
            0 <= i < names.len() ==> #[trigger] items[i] == JsonView::Text(names[i])),
        capabilities(params_view(request.params)) == Ok::<Seq<Seq<char>>, RpcErr>(names),
{
    json::texts_of_a_list(JsonView::of_texts(names), names);
    request_read_back(names);
    if let Some(params) = request.params {
        assert(params_view(request.params)->0.len() == 1);
        assert(params_view(request.params)->0[0] == json::json_view(params@[0]));
    }
}

/// A request that reads back some names makes who gets it parse just these names.
pub proof fn what_is_read_back(request: RpcRequest, names: Seq<Seq<char>>)
    requires
        reads_back(request, names),
    ensures
        request.params matches Some(params) && params@.len() > 0 && (json::json_view(params@[0])
            matches JsonView::List(items) && items.len() == names.len() && forall|i: int|
            0 <= i < names.len() ==> #[trigger] items[i] == JsonView::Text(names[i])),
{
    names_are_read_from_the_first(request.params, names);
}

/// Names are read from parameters exactly if the first parameter is the array of these names in
/// their order; everything else is refused as bad parameters.
pub proof fn names_are_read_from_the_first(params: Option<Vec<Value>>, names: Seq<Seq<char>>)
    ensures
        capabilities(params_view(params)) == Ok::<Seq<Seq<char>>, RpcErr>(names) <==> (
        params matches Some(values) && values@.len() > 0 && (json::json_view(values@[0])
            matches JsonView::List(items) && items.len() == names.len() && forall|i: int|
            0 <= i < names.len() ==> #[trigger] items[i] == JsonView::Text(names[i]))),
        capabilities(params_view(params)) is Ok || capabilities(params_view(params)) == Err::<
            Seq<Seq<char>>,
            RpcErr,
        >(RpcErr::BadParams),
{
    if let Some(values) = params {
        if values@.len() > 0 {
            assert(params_view(params)->0[0] == json::json_view(values@[0]));
            json::texts_of_a_list(json::json_view(values@[0]), names);
        }
    }
}

/// Parameters after the first make no difference.
pub proof fn first_counts(first: JsonView, others: Seq<JsonView>)
    ensures
        capabilities(Some(seq![first] + others)) == capabilities(Some(seq![first])),
{
}

} // verus!
