use symgraph::mangle_as_valid_dot_name;
use symgraph::table::StringTable;

fn san(s: &str, reserved: usize) -> Option<Vec<u8>> {
    mangle_as_valid_dot_name(&s.as_bytes().to_vec(), reserved)
}

#[test]
fn sanitizer_is_deterministic() {
    let inputs = ["liba.so", "", "_GLOBAL_OFFSET_TABLE_", ".LC0", "a-b.c", "/usr/lib/x.o"];
    for s in inputs {
        assert_eq!(san(s, 1), san(s, 1));
        assert_eq!(san(s, 2), san(s, 2));
    }
}

#[test]
fn rejects_empty_name() {
    assert_eq!(san("", 1), None);
    assert_eq!(san("", 2), None);
}

#[test]
fn rejects_global_offset_table() {
    assert_eq!(san("_GLOBAL_OFFSET_TABLE_", 1), None);
    assert_eq!(san("_GLOBAL_OFFSET_TABLE_", 2), None);
}

#[test]
fn rejects_constant_pool_labels() {
    assert_eq!(san(".LC0", 1), None);
    assert_eq!(san(".LC1", 2), None);
    assert_eq!(san(".LCanything", 1), None);
}

#[test]
fn rejects_reserved_underscore_prefix() {
    assert_eq!(san("_foo", 1), None);
    assert_eq!(san("__foo", 1), None);
    // under the two-underscore policy a single underscore is kept
    assert_eq!(san("__foo", 2), None);
    assert_eq!(san("_foo", 2), Some(b"_foo".to_vec()));
}

#[test]
fn path_and_extension_handling() {
    assert_eq!(san("/usr/lib/libfoo.o", 1), san("libfoo", 1));
    assert_eq!(san("/usr/lib/libfoo.o", 1), Some(b"libfoo".to_vec()));
    assert_eq!(san("a-b.c", 1), Some(b"a_b_c".to_vec()));
}

#[test]
fn shared_object_names_become_identifiers() {
    assert_eq!(san("liba.so", 1), Some(b"liba_so".to_vec()));
    assert_eq!(san("dir/sub/lib-x.so", 1), Some(b"lib_x_so".to_vec()));
}

#[test]
fn intern_twice_returns_equal_ids() {
    let mut t = StringTable::new();
    let a = t.intern(&b"alpha".to_vec());
    let b = t.intern(&b"beta".to_vec());
    let a2 = t.intern(&b"alpha".to_vec());
    let b2 = t.intern(&b"beta".to_vec());
    assert_eq!(a, a2);
    assert_eq!(b, b2);
    assert_ne!(a, b);
}

#[test]
fn resolve_inverts_intern() {
    let mut t = StringTable::new();
    let names: [&[u8]; 3] = [b"one", b"two", b"three"];
    for n in names {
        let id = t.intern(&n.to_vec());
        assert_eq!(t.resolve(id), Some(&n.to_vec()));
    }
    assert_eq!(t.len(), 3);
    assert_eq!(t.resolve(3), None);
}
