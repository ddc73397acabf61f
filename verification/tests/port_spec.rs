use kill_the_port::port::{PortParseError, PortSpec};

fn strings(items: &[&str]) -> Vec<String> {
    items.iter().map(|s| s.to_string()).collect()
}

#[test]
fn parse_single_port() {
    let args = vec!["3000".to_string()];
    let ports = PortSpec::parse_all(&args).unwrap();
    assert_eq!(ports, vec![3000]);
}

#[test]
fn parse_multiple_ports() {
    let args = vec!["3000".to_string(), "8080".to_string()];
    let ports = PortSpec::parse_all(&args).unwrap();
    assert_eq!(ports, vec![3000, 8080]);
}

#[test]
fn parse_port_range() {
    let args = vec!["3000-3003".to_string()];
    let ports = PortSpec::parse_all(&args).unwrap();
    assert_eq!(ports, vec![3000, 3001, 3002, 3003]);
}

#[test]
fn parse_comma_separated() {
    let args = vec!["3000,3001,3002".to_string()];
    let ports = PortSpec::parse_all(&args).unwrap();
    assert_eq!(ports, vec![3000, 3001, 3002]);
}

#[test]
fn parse_mixed() {
    let args = vec!["3000".to_string(), "4000-4002".to_string(), "5000,5001".to_string()];
    let ports = PortSpec::parse_all(&args).unwrap();
    assert_eq!(ports, vec![3000, 4000, 4001, 4002, 5000, 5001]);
}

#[test]
fn reject_zero_port() {
    let args = vec!["0".to_string()];
    assert!(PortSpec::parse_all(&args).is_err());
}

#[test]
fn reject_invalid_port() {
    let args = vec!["abc".to_string()];
    assert!(PortSpec::parse_all(&args).is_err());
}

#[test]
fn reject_reversed_range() {
    let args = vec!["5000-3000".to_string()];
    assert!(PortSpec::parse_all(&args).is_err());
}

#[test]
fn reject_huge_range() {
    let args = vec!["1-5000".to_string()];
    assert!(PortSpec::parse_all(&args).is_err());
}

#[test]
fn no_arguments_give_no_ports() {
    assert_eq!(PortSpec::parse_all(&[]).unwrap(), Vec::<u16>::new());
}

#[test]
fn zero_is_reported_as_zero() {
    assert!(matches!(PortSpec::parse_all(&strings(&["0"])), Err(PortParseError::Zero)));
    assert!(matches!(PortSpec::parse_all(&strings(&["0-5"])), Err(PortParseError::Zero)));
    assert!(matches!(PortSpec::parse_all(&strings(&["5-0"])), Err(PortParseError::Zero)));
    assert!(matches!(PortSpec::parse_all(&strings(&["80,0"])), Err(PortParseError::Zero)));
}

#[test]
fn invalid_text_is_reported_whole() {
    match PortSpec::parse_all(&strings(&["abc"])) {
        Err(PortParseError::Invalid(s)) => assert_eq!(s, "abc"),
        other => panic!("unexpected {:?}", other),
    }
    match PortSpec::parse_all(&strings(&["3000-"])) {
        Err(PortParseError::Invalid(s)) => assert_eq!(s, "3000-"),
        other => panic!("unexpected {:?}", other),
    }
    match PortSpec::parse_all(&strings(&["1-2-3"])) {
        Err(PortParseError::Invalid(s)) => assert_eq!(s, "1-2-3"),
        other => panic!("unexpected {:?}", other),
    }
}

#[test]
fn invalid_list_item_is_reported_untrimmed() {
    match PortSpec::parse_all(&strings(&["3000, abc"])) {
        Err(PortParseError::Invalid(s)) => assert_eq!(s, " abc"),
        other => panic!("unexpected {:?}", other),
    }
    match PortSpec::parse_all(&strings(&["3000,,3001"])) {
        Err(PortParseError::Invalid(s)) => assert_eq!(s, ""),
        other => panic!("unexpected {:?}", other),
    }
    match PortSpec::parse_all(&strings(&[""])) {
        Err(PortParseError::Invalid(s)) => assert_eq!(s, ""),
        other => panic!("unexpected {:?}", other),
    }
}

#[test]
fn range_errors_carry_bounds() {
    assert!(matches!(
        PortSpec::parse_all(&strings(&["5000-3000"])),
        Err(PortParseError::InvalidRange(5000, 3000))
    ));
    assert!(matches!(
        PortSpec::parse_all(&strings(&["1-5000"])),
        Err(PortParseError::RangeTooLarge(1, 5000))
    ));
    assert!(matches!(
        PortSpec::parse_all(&strings(&["1-1002"])),
        Err(PortParseError::RangeTooLarge(1, 1002))
    ));
}

#[test]
fn largest_range_is_accepted() {
    let ports = PortSpec::parse_all(&strings(&["1-1001"])).unwrap();
    assert_eq!(ports.len(), 1001);
    assert_eq!(ports[0], 1);
    assert_eq!(ports[1000], 1001);
}

#[test]
fn range_reaching_the_last_port() {
    let ports = PortSpec::parse_all(&strings(&["65534-65535"])).unwrap();
    assert_eq!(ports, vec![65534, 65535]);
    assert_eq!(PortSpec::parse_all(&strings(&["65535-65535"])).unwrap(), vec![65535]);
}

#[test]
fn blanks_and_plus_sign_are_accepted() {
    assert_eq!(PortSpec::parse_all(&strings(&[" 3000 "])).unwrap(), vec![3000]);
    assert_eq!(PortSpec::parse_all(&strings(&["+3000"])).unwrap(), vec![3000]);
    assert_eq!(PortSpec::parse_all(&strings(&[" 10 - 12 "])).unwrap(), vec![10, 11, 12]);
    assert_eq!(PortSpec::parse_all(&strings(&["1, 2 ,3"])).unwrap(), vec![1, 2, 3]);
    assert_eq!(PortSpec::parse_all(&strings(&["007"])).unwrap(), vec![7]);
}

#[test]
fn out_of_range_numbers_are_invalid() {
    assert!(matches!(PortSpec::parse_all(&strings(&["65536"])), Err(PortParseError::Invalid(_))));
    assert!(matches!(PortSpec::parse_all(&strings(&["-5"])), Err(PortParseError::Invalid(_))));
    assert!(matches!(PortSpec::parse_all(&strings(&["+"])), Err(PortParseError::Invalid(_))));
}

#[test]
fn first_error_wins() {
    assert!(matches!(
        PortSpec::parse_all(&strings(&["0", "abc"])),
        Err(PortParseError::Zero)
    ));
    match PortSpec::parse_all(&strings(&["80", "x", "0"])) {
        Err(PortParseError::Invalid(s)) => assert_eq!(s, "x"),
        other => panic!("unexpected {:?}", other),
    }
}

#[test]
fn parsing_arguments_together_concatenates() {
    let a = strings(&["3000", "4000-4001"]);
    let b = strings(&["5000,5001"]);
    let mut both = a.clone();
    both.extend(b.clone());
    let mut expected = PortSpec::parse_all(&a).unwrap();
    expected.extend(PortSpec::parse_all(&b).unwrap());
    assert_eq!(PortSpec::parse_all(&both).unwrap(), expected);
}

#[test]
fn printed_ports_parse_back() {
    for port in [1u16, 80, 8080, 65535] {
        assert_eq!(PortSpec::parse_all(&[port.to_string()]).unwrap(), vec![port]);
    }
    let text = format!("{}-{}", 4000, 4003);
    assert_eq!(PortSpec::parse_all(&[text]).unwrap(), vec![4000, 4001, 4002, 4003]);
}

#[test]
fn parsed_ports_are_never_zero() {
    let ports = PortSpec::parse_all(&strings(&["1-20", "7,8", "65535"])).unwrap();
    assert!(ports.iter().all(|p| *p != 0));
}
