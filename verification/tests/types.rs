use ensourcel::{
    is_primitive, mem_size, ritual_size_checked, Par, Privacy, Ritual, Type, TypeDec,
};

fn field(name: &str, base: Type, pointer: bool, dims: Vec<usize>) -> Par {
    Par {
        identifier: name.to_string(),
        par_type: TypeDec { base_type: base, pointer, dimensions: dims },
    }
}

#[test]
fn primitive_names_and_sizes() {
    let t = Type::from_primitive("int", 8);
    assert_eq!(t.identifier, "i");
    assert!(t.signed);
    assert_eq!(t.size, 8);
    let t = Type::from_primitive("ufx", 2);
    assert_eq!(t.identifier, "ufx");
    assert!(!t.signed);
    assert_eq!(t.size, 2);
    let t = Type::from_primitive("b", 3);
    assert_eq!(t.identifier, "b");
    assert!(!t.signed);
}

#[test]
fn long_and_short_primitive_names_agree() {
    let pairs = [
        ("bool", "b"),
        ("int", "i"),
        ("float", "f"),
        ("fixed", "fx"),
        ("uint", "ui"),
        ("ufloat", "uf"),
        ("ufixed", "ufx"),
    ];
    for (long, short) in pairs {
        let a = Type::from_primitive(long, 6);
        let b = Type::from_primitive(short, 6);
        assert_eq!(a.identifier, b.identifier);
        assert_eq!(a.signed, b.signed);
        assert_eq!(a.size, b.size);
    }
}

#[test]
fn cprimitive_default_sizes() {
    assert_eq!(Type::from_cprimitive("bool").size, 1);
    assert_eq!(Type::from_cprimitive("b").size, 1);
    assert_eq!(Type::from_cprimitive("int").size, 4);
    assert_eq!(Type::from_cprimitive("uf").size, 4);
    assert_eq!(Type::from_cprimitive("fixed").identifier, "fx");
    assert!(Type::from_cprimitive("float").signed);
}

#[test]
fn primitive_name_check() {
    assert!(is_primitive("ufloat"));
    assert!(is_primitive("ui"));
    assert!(!is_primitive("string"));
    assert!(!is_primitive(""));
    assert!(!is_primitive("Int"));
}

#[test]
fn named_constructors() {
    let c = Type::char();
    assert_eq!((c.identifier.as_str(), c.signed, c.size), ("c", true, 1));
    let s = Type::str(5);
    assert_eq!((s.identifier.as_str(), s.signed, s.size), ("s", false, 6));
    let v = Type::get_void();
    assert_eq!((v.identifier.as_str(), v.signed, v.size), ("void", false, 0));
    let f = Type::float(4);
    assert_eq!((f.identifier.as_str(), f.signed, f.size), ("f", true, 4));
    let f = Type::fixed(4);
    assert_eq!((f.identifier.as_str(), f.signed, f.size), ("fx", true, 4));
    let f = Type::ufloat(4);
    assert_eq!((f.identifier.as_str(), f.signed, f.size), ("uf", false, 4));
    let f = Type::ufixed(4);
    assert_eq!((f.identifier.as_str(), f.signed, f.size), ("ufx", false, 4));
    let f = Type::uint(2);
    assert_eq!((f.identifier.as_str(), f.signed, f.size), ("ui", false, 2));
    let f = Type::integer(2);
    assert_eq!((f.identifier.as_str(), f.signed, f.size), ("i", true, 2));
    let f = Type::bool(1);
    assert_eq!((f.identifier.as_str(), f.signed, f.size), ("b", false, 1));
}

#[test]
fn ritual_size_sums_fields() {
    let r = Ritual {
        privacy: Privacy::Forall,
        identifier: "point".to_string(),
        content: vec![
            field("x", Type::integer(4), false, vec![]),
            field("grid", Type::integer(2), false, vec![3, 5]),
            field("next", Type::integer(4), true, vec![100]),
        ],
    };
    let expected = 4 + 2 * 3 * 5 + mem_size();
    assert_eq!(ritual_size_checked(&r), Some(expected));
    let t = Type::from_ritual(r);
    assert_eq!(t.identifier, "point");
    assert!(!t.signed);
    assert_eq!(t.size, expected);
}

#[test]
fn pointer_field_takes_a_word() {
    let r = Ritual {
        privacy: Privacy::Mine,
        identifier: "p".to_string(),
        content: vec![field("big", Type::integer(1000), true, vec![1000, 1000])],
    };
    assert_eq!(Type::from_ritual(r).size, std::mem::size_of::<usize>());
}

#[test]
fn empty_ritual_has_size_zero() {
    let r = Ritual { privacy: Privacy::Forall, identifier: "e".to_string(), content: vec![] };
    assert_eq!(Type::from_ritual(r).size, 0);
}

#[test]
fn ritual_size_overflow_is_reported() {
    let r = Ritual {
        privacy: Privacy::Forall,
        identifier: "huge".to_string(),
        content: vec![field("a", Type::integer(usize::MAX), false, vec![2])],
    };
    assert_eq!(ritual_size_checked(&r), None);
    let r = Ritual {
        privacy: Privacy::Forall,
        identifier: "huge".to_string(),
        content: vec![
            field("a", Type::integer(usize::MAX), false, vec![]),
            field("b", Type::integer(1), false, vec![]),
        ],
    };
    assert_eq!(ritual_size_checked(&r), None);
    // an overflow on the way counts even where a later dimension is zero
    let r = Ritual {
        privacy: Privacy::Forall,
        identifier: "z".to_string(),
        content: vec![field("a", Type::integer(usize::MAX), false, vec![2, 0])],
    };
    assert_eq!(ritual_size_checked(&r), None);
}
