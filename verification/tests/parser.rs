use treeclocks::{IdTree, IdTreeParseError};

#[test]
fn test_parse() {
    let strs = [
        "(0, 1)",
        "((1, 0), 1)",
        "(((1, 0), (0, (1, 0))), (((1, 0), (0, 1)), (1, 0)))",
    ];

    for s in strs {
        let id: IdTree = s.parse().expect(&format!("Unable to parse {s}"));
        assert_eq!(format!("{}", id.to_string()), s);
    }
}

#[test]
fn parse_leaves() {
    assert_eq!(IdTree::parse("0"), Ok(IdTree::Zero));
    assert_eq!(IdTree::parse("1"), Ok(IdTree::One));
    assert_eq!(IdTree::parse("  1\n"), Ok(IdTree::One));
    assert_eq!(IdTree::parse("+1"), Ok(IdTree::One));
    assert_eq!(IdTree::parse("000"), Ok(IdTree::Zero));
}

#[test]
fn parse_passes_over_white_space() {
    let want = IdTree::subtree(IdTree::subtree(IdTree::One, IdTree::Zero), IdTree::One);
    assert_eq!(IdTree::parse("((1,0),1)"), Ok(want.clone()));
    assert_eq!(IdTree::parse(" ( ( 1 , 0 ) , 1 ) "), Ok(want.clone()));
    assert_eq!(IdTree::parse("((1, 0),\t1)"), Ok(want.clone()));
    assert_eq!(
        IdTree::parse("\u{B}\u{C}((1,\u{A0}0)\u{2003},\u{3000}1)\u{85}\u{2028}"),
        Ok(want)
    );
    assert_eq!(IdTree::parse("\u{200B}1"), Err(IdTreeParseError::Unknown));
}

#[test]
fn parse_errors() {
    assert_eq!(IdTree::parse("2"), Err(IdTreeParseError::InvalidValue(2)));
    assert_eq!(
        IdTree::parse("4294967295"),
        Err(IdTreeParseError::InvalidValue(4294967295))
    );
    assert_eq!(IdTree::parse("4294967296"), Err(IdTreeParseError::Unknown));
    assert_eq!(IdTree::parse("(1, 7)"), Err(IdTreeParseError::InvalidValue(7)));
    assert_eq!(IdTree::parse("(1 0)"), Err(IdTreeParseError::NoSplit));
    assert_eq!(IdTree::parse("((1, 0))"), Err(IdTreeParseError::NoSplit));
    assert_eq!(IdTree::parse("()"), Err(IdTreeParseError::NoSplit));
    assert_eq!(IdTree::parse("(1), 0)"), Err(IdTreeParseError::NoSplit));
    assert_eq!(IdTree::parse(""), Err(IdTreeParseError::Unknown));
    assert_eq!(IdTree::parse("x"), Err(IdTreeParseError::Unknown));
    assert_eq!(IdTree::parse("(1, 0"), Err(IdTreeParseError::Unknown));
    assert_eq!(IdTree::parse("(1, )"), Err(IdTreeParseError::Unknown));
    assert_eq!(IdTree::parse("(x, 2)"), Err(IdTreeParseError::Unknown));
    assert_eq!(IdTree::parse("+"), Err(IdTreeParseError::Unknown));
    assert_eq!(IdTree::parse("1 1"), Err(IdTreeParseError::Unknown));
}

#[test]
fn parse_error_messages() {
    assert_eq!(
        IdTreeParseError::InvalidValue(12).to_string(),
        "Invalid value encountered 12"
    );
    assert_eq!(IdTreeParseError::NoSplit.to_string(), "Unable to find the split");
    assert_eq!(IdTreeParseError::Unknown.to_string(), "Unknown characters");
}

#[test]
fn text_round_trip() {
    let ids = [
        IdTree::Zero,
        IdTree::One,
        IdTree::subtree(IdTree::Zero, IdTree::One),
        IdTree::subtree(
            IdTree::subtree(IdTree::One, IdTree::subtree(IdTree::Zero, IdTree::One)),
            IdTree::subtree(IdTree::Zero, IdTree::Zero),
        ),
    ];
    for id in ids {
        assert_eq!(IdTree::parse(&id.to_string()), Ok(id));
    }
}
