use tortilla::abi::Abi;
use tortilla::solc::parse_output;
use tortilla::solc::ParseError;

fn migrations_section() -> String {
    let mut s = String::new();
    s.push_str("\n");
    s.push_str("======= contracts/Migrations.sol:Migrations =======\n");
    s.push_str("Gas estimation:\n");
    s.push_str("construction:\n");
    s.push_str("   103 + 103800 = 140000\n");
    s.push_str("external:\n");
    s.push_str("   upgrade(address): 23000\n");
    s.push_str("Binary:\n");
    s.push_str("608060405234801561001057600080fd5b50\n");
    s.push_str("Contract JSON ABI\n");
    s.push_str(
        r#"[{"type":"function","name":"upgrade","inputs":[{"name":"new_address","type":"address"}],"outputs":[],"stateMutability":"nonpayable"}]"#,
    );
    s.push_str("\n");
    s
}

#[test]
fn test_one_section_with_gas() {
    let output = migrations_section();
    let contracts = parse_output(&output).expect("Couldn't parse the output");
    assert_eq!(contracts.len(), 1);
    let c = &contracts[0];
    assert_eq!(c.name, "Migrations");
    assert_eq!(c.bin, "608060405234801561001057600080fd5b50");
    let gas = c.gas_estimates.as_ref().expect("gas estimates missing");
    assert_eq!(gas.construction, "140000");
    assert_eq!(gas.external.get("upgrade").unwrap().as_str(), "23000");
    assert_eq!(gas.internal.len(), 0);
    assert_eq!(c.abi.len(), 1);
    match &c.abi[0] {
        Abi::Function(f) => assert_eq!(f.name, "upgrade"),
        _ => unreachable!(),
    }
}

#[test]
fn test_two_sections_in_order() {
    let mut output = migrations_section();
    output.push_str("\n");
    output.push_str("======= contracts/Other.sol:Other =======\n");
    output.push_str("Gas estimation:\n");
    output.push_str("construction:\n");
    output.push_str("   7 + 7 = 14\n");
    output.push_str("external:\n");
    output.push_str("Binary:\n");
    output.push_str("\n");
    output.push_str("Contract JSON ABI\n");
    output.push_str("[]\n");

    let contracts = parse_output(&output).expect("Couldn't parse the output");
    assert_eq!(contracts.len(), 2);
    assert_eq!(contracts[0].name, "Migrations");
    assert_eq!(contracts[1].name, "Other");
    assert_eq!(contracts[1].bin, "");
    assert_eq!(contracts[1].abi.len(), 0);
    assert_eq!(contracts[1].gas_estimates.as_ref().unwrap().construction, "14");
}

#[test]
fn test_internal_rows_switch_target() {
    let mut output = String::new();
    output.push_str("\n");
    output.push_str("======= a.sol:A =======\n");
    output.push_str("Gas estimation:\n");
    output.push_str("construction:\n");
    output.push_str("   1 + 1 = 2\n");
    output.push_str("external:\n");
    output.push_str("   f(): 10\n");
    output.push_str("internal:\n");
    output.push_str("   g(uint256): 20\n");
    output.push_str("Binary:\n");
    output.push_str("00\n");
    output.push_str("Contract JSON ABI\n");
    output.push_str("[]\n");

    let contracts = parse_output(&output).expect("Couldn't parse the output");
    let gas = contracts[0].gas_estimates.as_ref().unwrap();
    assert_eq!(gas.external.get("f").unwrap().as_str(), "10");
    assert_eq!(gas.external.len(), 1);
    assert_eq!(gas.internal.get("g").unwrap().as_str(), "20");
    assert_eq!(gas.internal.len(), 1);
}

#[test]
fn test_bad_header_is_format_error() {
    let output = "\nNOT A HEADER\nGas estimation:\n";
    match parse_output(output) {
        Err(ParseError::Format(f)) => {
            assert_eq!(f.expected, "======= <path>:<name> =======");
            assert_eq!(f.found, "NOT A HEADER");
        },
        _ => unreachable!(),
    }
}

#[test]
fn test_missing_label_is_format_error() {
    let mut output = String::new();
    output.push_str("\n");
    output.push_str("======= a.sol:A =======\n");
    output.push_str("Fuel estimation:\n");
    match parse_output(&output) {
        Err(ParseError::Format(f)) => {
            assert_eq!(f.expected, "Gas estimation:");
            assert_eq!(f.found, "Fuel estimation:");
        },
        _ => unreachable!(),
    }
}

#[test]
fn test_bad_abi_is_schema_error() {
    let mut output = String::new();
    output.push_str("\n");
    output.push_str("======= a.sol:A =======\n");
    output.push_str("Gas estimation:\n");
    output.push_str("construction:\n");
    output.push_str("   1 + 1 = 2\n");
    output.push_str("external:\n");
    output.push_str("Binary:\n");
    output.push_str("00\n");
    output.push_str("Contract JSON ABI\n");
    output.push_str("[{\"type\":\"widget\"}]\n");
    match parse_output(&output) {
        Err(ParseError::Schema(e)) => {
            assert_eq!(e, tortilla::abi::SchemaError::UnrecognizedEntry);
        },
        _ => unreachable!(),
    }
}

#[test]
fn test_empty_output_is_empty() {
    let contracts = parse_output("").expect("Couldn't parse empty output");
    assert_eq!(contracts.len(), 0);
}

#[test]
fn test_from_solc_contract_correlates() {
    let output = migrations_section();
    let mut contracts = parse_output(&output).expect("Couldn't parse the output");
    let section = contracts.remove(0);
    let contract = tortilla::contract::Contract::from_solc_contract(section);
    assert_eq!(contract.name, "Migrations");
    assert_eq!(contract.bin, "608060405234801561001057600080fd5b50");
    assert_eq!(contract.gas_estimates.as_ref().unwrap().construction, "140000");
    assert_eq!(contract.get_address("1"), None);
}

#[test]
fn test_config_builder() {
    let config = tortilla::config::Config::new(vec!["contracts".to_owned()])
        .watch(true)
        .output("out")
        .pretty_print(true)
        .gas(true);
    assert_eq!(config.inputs, vec!["contracts".to_owned()]);
    assert_eq!(config.watch, true);
    assert_eq!(config.output, "out");
    assert_eq!(config.pretty_print, true);
    assert_eq!(config.gas, true);
}
