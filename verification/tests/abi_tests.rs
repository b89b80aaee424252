use tortilla::abi::Abi;
use tortilla::abi::SchemaError;

#[test]
fn test_function_one_input_no_output_from_str() {
    let input = r#"
        {
          "inputs": [
            {
              "name": "new_address",
              "type": "address"
            }
          ],
          "name": "upgrade",
          "outputs": [],
          "stateMutability": "nonpayable",
          "type": "function"
        }"#;

    let abi = Abi::from_str(&input).expect("Couldn't parse the input");

    match abi {
        Abi::Function(func) => {
            assert_eq!(func.inputs.len(), 1);
            assert_eq!(func.inputs[0].name, "new_address");
            assert_eq!(func.inputs[0].ty, "address");
            assert_eq!(func.inputs[0].components, None);
            assert_eq!(func.name, "upgrade");
            assert_eq!(func.outputs.len(), 0);
            assert_eq!(func.stateMutability, "nonpayable");
        },
        _ => unreachable!(),
    }
}

#[test]
fn test_public_attribute() {
    let input = r#"
    {
      "inputs":[
      ],
      "name":"last_completed_migration",
      "outputs":[
        {
          "internalType":"uint256",
          "name":"",
          "type":"uint256"
        }
      ],
      "stateMutability":"view",
      "type":"function"
    }"#;

    let abi = Abi::from_str(&input).expect("Couldn't parse the input");

    match abi {
        Abi::Function(func) => {
            assert_eq!(func.inputs.len(), 0);
            assert_eq!(func.name, "last_completed_migration");
            assert_eq!(func.outputs.len(), 1);
            assert_eq!(func.outputs[0].name, "");
            assert_eq!(func.outputs[0].ty, "uint256");
            assert_eq!(func.stateMutability, "view");
        },
        _ => unreachable!(),
    }
}

#[test]
fn test_constructor_no_inputs_from_str() {
    let input = r#"
        {
          "inputs": [],
          "stateMutability": "nonpayable",
          "type": "constructor"
        }"#;

    let abi = Abi::from_str(&input).expect("Couldn't parse the input");

    match abi {
        Abi::Constructor(constructor) => {
            assert_eq!(constructor.inputs.len(), 0);
            assert_eq!(constructor.stateMutability, "nonpayable");
        },
        _ => unreachable!(),
    }
}

#[test]
fn test_constructor_one_input_from_str() {
    let input = r#"
        {
          "inputs": [
            {
              "name": "proposalNames",
              "type": "bytes32[]"
            }
          ],
          "stateMutability": "nonpayable",
          "type": "constructor"
        } "#;

    let abi = Abi::from_str(&input).expect("Couldn't parse the input");

    match abi {
        Abi::Constructor(constructor) => {
            assert_eq!(constructor.inputs.len(), 1);
            assert_eq!(constructor.inputs[0].name, "proposalNames");
            assert_eq!(constructor.inputs[0].ty, "bytes32[]");
            assert_eq!(constructor.stateMutability, "nonpayable");
        },
        _ => unreachable!(),
    }
}

#[test]
fn test_event() {
    let input = r#"
        {
          "anonymous": false,
          "inputs": [
            {
              "indexed": false,
              "name": "winner",
              "type": "address"
            },
            {
              "indexed": false,
              "name": "amount",
              "type": "uint256"
            }
          ],
          "name": "AuctionEnded",
          "type": "event"
        } "#;

    let abi = Abi::from_str(&input).expect("Couldn't parse the input");

    match abi {
        Abi::Event(event) => {
            assert_eq!(event.anonymous, false);
            assert_eq!(event.inputs.len(), 2);
            assert_eq!(event.inputs[0].indexed, false);
            assert_eq!(event.inputs[0].name, "winner");
            assert_eq!(event.inputs[0].ty, "address");
            assert_eq!(event.inputs[1].indexed, false);
            assert_eq!(event.inputs[1].name, "amount");
            assert_eq!(event.inputs[1].ty, "uint256");
            assert_eq!(event.name, "AuctionEnded");
        },
        _ => unreachable!(),
    }
}

#[test]
fn test_array_event() {
    let input = r#"[
        {
          "anonymous": false,
          "inputs": [
            {
              "indexed": false,
              "name": "winner",
              "type": "address"
            },
            {
              "indexed": false,
              "name": "amount",
              "type": "uint256"
            }
          ],
          "name": "AuctionEnded",
          "type": "event"
        }]"#;

    let abis = Abi::from_json_array(&input).expect("Couldn't parse the input");

    assert_eq!(abis.len(), 1);
    let abi = &abis[0];

    match abi {
        Abi::Event(event) => {
            assert_eq!(event.anonymous, false);
            assert_eq!(event.inputs.len(), 2);
            assert_eq!(event.inputs[0].indexed, false);
            assert_eq!(event.inputs[0].name, "winner");
            assert_eq!(event.inputs[0].ty, "address");
            assert_eq!(event.inputs[1].indexed, false);
            assert_eq!(event.inputs[1].name, "amount");
            assert_eq!(event.inputs[1].ty, "uint256");
            assert_eq!(event.name, "AuctionEnded");
        },
        _ => unreachable!(),
    }
}

#[test]
fn test_legacy_schema_flags() {
    let input = r#"[
        {
          "constant": true,
          "inputs": [],
          "name": "owner",
          "outputs": [{"name": "", "type": "address"}],
          "payable": false,
          "stateMutability": "view",
          "type": "function"
        }]"#;

    let abis = Abi::from_json_array(&input).expect("Couldn't parse the input");
    assert_eq!(abis.len(), 1);
    match &abis[0] {
        Abi::Function(func) => {
            assert_eq!(func.constant, Some(true));
            assert_eq!(func.payable, Some(false));
            assert_eq!(func.stateMutability, "view");
        },
        _ => unreachable!(),
    }
}

#[test]
fn test_decode_encode_decode() {
    let input = r#"[
        {"type":"function","name":"upgrade",
         "inputs":[{"name":"new_address","type":"address"}],
         "outputs":[],"stateMutability":"nonpayable"},
        {"type":"constructor","inputs":[],"stateMutability":"nonpayable"},
        {"type":"fallback","stateMutability":"payable"},
        {"type":"event","name":"Done",
         "inputs":[{"name":"who","type":"address","indexed":true}],
         "anonymous":false}]"#;

    let first = Abi::from_json_array(input).expect("Couldn't parse the input");
    let compact = tortilla::abi::to_json_array_text(&first, false);
    let second = Abi::from_json_array(compact.as_str()).expect("Couldn't parse re-encoded text");
    assert_eq!(first, second);

    let readable = tortilla::abi::to_json_array_text(&first, true);
    let third = Abi::from_json_array(readable.as_str()).expect("Couldn't parse readable text");
    assert_eq!(first, third);
}

#[test]
fn test_tuple_components_round_trip() {
    let input = r#"[
        {"type":"function","name":"f",
         "inputs":[{"name":"t","type":"tuple",
                    "components":[{"name":"a","type":"uint256"},
                                  {"name":"b","type":"tuple[]",
                                   "components":[{"name":"c","type":"bytes32"}]}]}],
         "outputs":[],"stateMutability":"pure"}]"#;

    let first = Abi::from_json_array(input).expect("Couldn't parse the input");
    match &first[0] {
        Abi::Function(func) => {
            let t = &func.inputs[0];
            let cs = t.components.as_ref().expect("components missing");
            assert_eq!(cs.len(), 2);
            assert_eq!(cs[1].components.as_ref().unwrap()[0].name, "c");
        },
        _ => unreachable!(),
    }
    let text = tortilla::abi::to_json_array_text(&first, false);
    let second = Abi::from_json_array(text.as_str()).unwrap();
    assert_eq!(first, second);
}

#[test]
fn test_missing_field_error() {
    let input = r#"[{"type":"function","inputs":[],"outputs":[],"stateMutability":"pure"}]"#;
    match Abi::from_json_array(input) {
        Err(SchemaError::MissingField(f)) => assert_eq!(f, "name"),
        _ => unreachable!(),
    }
}

#[test]
fn test_unrecognized_entry_error() {
    let input = r#"[{"type":"widget"}]"#;
    assert_eq!(Abi::from_json_array(input), Err(SchemaError::UnrecognizedEntry));
    let not_array = r#"{"type":"function"}"#;
    assert_eq!(Abi::from_json_array(not_array), Err(SchemaError::UnrecognizedEntry));
}

#[test]
fn test_invalid_json_error() {
    assert_eq!(Abi::from_json_array("not json at all"), Err(SchemaError::InvalidJson));
    assert_eq!(Abi::from_json_array("[{"), Err(SchemaError::InvalidJson));
}
