use tortilla::abi::Abi;
use tortilla::abi::Function;
use tortilla::abi::Variable;
use tortilla::contract::Address;
use tortilla::contract::Contract;
use tortilla::contract::GasEstimates;
use tortilla::contract::StringMap;

fn migrations_abi() -> Vec<Abi> {
    vec![
        Abi::Function(Function {
            name: "upgrade".to_owned(),
            inputs: vec![Variable {
                name: "new_address".to_owned(),
                ty: "address".to_owned(),
                components: None,
            }],
            outputs: vec![],
            stateMutability: "nonpayable".to_owned(),
            constant: Some(false),
            payable: Some(false),
        }),
        Abi::Function(Function {
            name: "last_completed_migration".to_owned(),
            inputs: vec![],
            outputs: vec![Variable {
                name: "".to_owned(),
                ty: "uint256".to_owned(),
                components: None,
            }],
            stateMutability: "view".to_owned(),
            constant: Some(true),
            payable: Some(false),
        }),
        Abi::Function(Function {
            name: "owner".to_owned(),
            inputs: vec![],
            outputs: vec![Variable {
                name: "".to_owned(),
                ty: "address".to_owned(),
                components: None,
            }],
            stateMutability: "view".to_owned(),
            constant: Some(true),
            payable: Some(false),
        }),
        Abi::Function(Function {
            name: "setCompleted".to_owned(),
            inputs: vec![Variable {
                name: "completed".to_owned(),
                ty: "uint256".to_owned(),
                components: None,
            }],
            outputs: vec![],
            stateMutability: "nonpayable".to_owned(),
            constant: Some(false),
            payable: Some(false),
        }),
        Abi::Constructor(tortilla::abi::Constructor {
            inputs: vec![],
            stateMutability: "nonpayable".to_owned(),
            payable: Some(false),
        }),
    ]
}

fn migrations_contract() -> Contract {
    Contract::new("Migrations".to_owned(), migrations_abi(), "6080604052".to_owned())
}

#[test]
fn test_get_methods() {
    let contract = migrations_contract();

    let methods = contract.get_methods();
    assert_eq!(methods.len(), 4);

    assert_eq!(methods.get("owner").is_some(), true);
    assert_eq!(methods.get("last_completed_migration").is_some(), true);
    assert_eq!(methods.get("setCompleted").is_some(), true);
    assert_eq!(methods.get("upgrade").is_some(), true);
}

#[test]
fn test_get_methods_last_overload_wins() {
    let mut abi = migrations_abi();
    abi.push(Abi::Function(Function {
        name: "transfer".to_owned(),
        inputs: vec![Variable { name: "to".to_owned(), ty: "address".to_owned(), components: None }],
        outputs: vec![],
        stateMutability: "nonpayable".to_owned(),
        constant: None,
        payable: None,
    }));
    abi.push(Abi::Function(Function {
        name: "transfer".to_owned(),
        inputs: vec![
            Variable { name: "to".to_owned(), ty: "address".to_owned(), components: None },
            Variable { name: "amount".to_owned(), ty: "uint256".to_owned(), components: None },
        ],
        outputs: vec![],
        stateMutability: "nonpayable".to_owned(),
        constant: None,
        payable: None,
    }));
    let contract = Contract::new("Token".to_owned(), abi, String::new());
    let methods = contract.get_methods();
    assert_eq!(methods.len(), 5);
    let f = methods.get("transfer").expect("transfer missing");
    assert_eq!(f.inputs.len(), 2);
}

#[test]
fn test_add_network() {
    let mut contract = migrations_contract();

    contract.add_network(
        "1566487350707",
        Address::from_hex("e78a0f7e598cc8b0bb87894b0f60dd2a88d6a8ab").unwrap(),
    );

    assert_eq!(
        contract.get_address("1566487350707"),
        Some(Address::from_hex("e78a0f7e598cc8b0bb87894b0f60dd2a88d6a8ab").unwrap())
    );
}

#[test]
fn test_add_network_unknown_id_stays_unknown() {
    let mut contract = migrations_contract();
    contract.add_network("1", Address::from_hex("e78a0f7e598cc8b0bb87894b0f60dd2a88d6a8ab").unwrap());
    assert_eq!(contract.get_address("2"), None);
}

#[test]
fn test_add_network_last_write_wins() {
    let mut contract = migrations_contract();
    let a = Address::from_hex("0x0000000000000000000000000000000000000001").unwrap();
    let b = Address::from_hex("0x0000000000000000000000000000000000000002").unwrap();
    contract.add_network("1", a);
    contract.add_network("1", b);
    assert_eq!(
        contract.get_address("1"),
        Some(Address::from_hex("0x0000000000000000000000000000000000000002").unwrap())
    );
}

#[test]
fn test_from_json() {
    let contract = migrations_contract();

    let json = contract.pretty_print();

    let from_json = Contract::from_json(&json).expect("Couldn't parse contract");

    assert_eq!(contract, from_json);
}

#[test]
fn test_document_round_trip_full() {
    let mut contract = migrations_contract();
    let mut external = StringMap::new();
    external.insert("upgrade".to_owned(), "23000".to_owned());
    let internal = StringMap::new();
    contract.gas_estimates = Some(GasEstimates {
        construction: "140000".to_owned(),
        external,
        internal,
    });
    contract.add_network(
        "1566487350707",
        Address::from_hex("e78a0f7e598cc8b0bb87894b0f60dd2a88d6a8ab").unwrap(),
    );

    let readable = contract.pretty_print();
    let again = Contract::from_json(&readable).expect("Couldn't parse contract");
    assert_eq!(contract, again);

    let compact = contract.serialize();
    let again2 = Contract::from_json(&compact).expect("Couldn't parse contract");
    assert_eq!(contract, again2);
}

#[test]
fn test_address_hex_round_trip() {
    let a = Address::from_hex("E78A0F7E598CC8B0BB87894B0F60DD2A88D6A8AB").unwrap();
    let text = a.to_hex();
    assert_eq!(text, "0xe78a0f7e598cc8b0bb87894b0f60dd2a88d6a8ab");
    assert_eq!(Address::from_hex(&text), Some(a));
    assert_eq!(Address::from_hex("too short"), None);
    assert_eq!(Address::from_hex("zz8a0f7e598cc8b0bb87894b0f60dd2a88d6a8ab"), None);
}

#[test]
fn test_gas_report_layout() {
    let mut contract = migrations_contract();
    let mut external = StringMap::new();
    external.insert("upgrade".to_owned(), "23000".to_owned());
    contract.gas_estimates = Some(GasEstimates {
        construction: "140000".to_owned(),
        external,
        internal: StringMap::new(),
    });

    let report = contract.gas_estimates_to_string();
    assert_eq!(report, "construction: 140000\n    external:\n     upgrade: 23000");
    assert_eq!(report.contains("internal:"), false);
}

#[test]
fn test_gas_report_sorted_rows() {
    let mut contract = migrations_contract();
    let mut external = StringMap::new();
    external.insert("zeta".to_owned(), "2".to_owned());
    external.insert("alpha".to_owned(), "1".to_owned());
    let mut internal = StringMap::new();
    internal.insert("inner".to_owned(), "3".to_owned());
    contract.gas_estimates = Some(GasEstimates {
        construction: "99".to_owned(),
        external,
        internal,
    });

    let report = contract.gas_estimates_to_string();
    assert_eq!(
        report,
        "construction: 99\n    external:\n       alpha: 1\n        zeta: 2\n    internal:\n       inner: 3"
    );
}

#[test]
fn test_gas_report_empty_without_estimates() {
    let contract = migrations_contract();
    assert_eq!(contract.gas_estimates_to_string(), "");
}

#[test]
fn test_document_round_trip_escaped_text() {
    let abi = vec![Abi::Function(Function {
        name: "with \"quotes\" and \\slashes\\".to_owned(),
        inputs: vec![],
        outputs: vec![],
        stateMutability: "pure".to_owned(),
        constant: None,
        payable: None,
    })];
    let mut contract = Contract::new("Odd\nName\twith control text".to_owned(), abi, "00".to_owned());
    contract.add_network(
        "id with spaces",
        Address::from_hex("0x0123456789abcdef0123456789abcdef01234567").unwrap(),
    );

    let text = contract.pretty_print();
    let again = Contract::from_json(&text).expect("Couldn't parse contract");
    assert_eq!(contract, again);
}
