use oid_codec::Asn1Parser;

#[test]
fn test() {
    let asn1 = Asn1Parser::new(
        r"
            foo OBJECT IDENTIFIER ::= { bar(1) baz(2) 3 }
            bat OBJECT IDENTIFIER ::= { foo qux(4) 5 }
            quz OBJECT IDENTIFIER ::= { bat 6 }
        ",
        &[],
    );

    let answer = ("quz".to_string(), "1.2.3.4.5.6".to_string());

    let mut iter = asn1.iter().into_iter();
    assert_eq!(Some(answer), iter.next());
    assert_eq!(None, iter.next());
}

#[test]
fn resolve_follows_base_chain() {
    let asn1 = Asn1Parser::new(
        r"
            foo OBJECT IDENTIFIER ::= { bar(1) baz(2) 3 }
            bat OBJECT IDENTIFIER ::= { foo qux(4) 5 }
        ",
        &[],
    );
    assert_eq!(asn1.resolve("foo"), Some("1.2.3".to_string()));
    assert_eq!(asn1.resolve("bat"), Some("1.2.3.4.5".to_string()));
    assert_eq!(asn1.resolve("nope"), None);
}

#[test]
fn resolve_uses_base_table() {
    let asn1 = Asn1Parser::new(
        r"
            leaf OBJECT IDENTIFIER ::= { root 7 }
        ",
        &[("root".to_string(), "1.2.3".to_string())],
    );
    assert_eq!(asn1.resolve("root"), Some("1.2.3".to_string()));
    assert_eq!(asn1.resolve("leaf"), Some("1.2.3.7".to_string()));
}

#[test]
fn resolve_rejects_cycles() {
    let asn1 = Asn1Parser::new(
        r"
            ouro OBJECT IDENTIFIER ::= { boros 1 }
            boros OBJECT IDENTIFIER ::= { ouro 2 }
        ",
        &[],
    );
    assert_eq!(asn1.resolve("ouro"), None);
    assert_eq!(asn1.resolve("boros"), None);
}

#[test]
fn duplicate_definitions_last_wins() {
    let asn1 = Asn1Parser::new(
        r"
            foo OBJECT IDENTIFIER ::= { 1 2 3 }
            foo OBJECT IDENTIFIER ::= { 1 2 4 }
        ",
        &[],
    );
    assert_eq!(asn1.resolve("foo"), Some("1.2.4".to_string()));
    let items = asn1.iter();
    assert_eq!(items.len(), 1);
    assert_eq!(items[0], ("foo".to_string(), "1.2.4".to_string()));
}

#[test]
fn alias_definitions_are_rewritten() {
    let asn1 = Asn1Parser::new(
        "AttributeType ::= OBJECT IDENTIFIER\nid-at OBJECT IDENTIFIER ::= { 2 5 4 }\nid-at-name AttributeType ::= { id-at 41 }\n",
        &[],
    );
    assert_eq!(asn1.resolve("id-at-name"), Some("2.5.4.41".to_string()));
}
