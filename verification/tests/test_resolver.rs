use analyzer::mem_db::MemoryDb;
use analyzer::resolver::{DefIdAllocator, DefId, DefMap, ItemKind, Resolver};
use analyzer::syntax::{FuncDef, Item, Module, Path, StructDef, UseStmt, UseTree};
use std::collections::HashSet;
use std::sync::Arc;

fn func(name: &str) -> Arc<Item> {
    Arc::new(Item::Function(FuncDef { name: name.to_string() }))
}

fn strukt(name: &str) -> Arc<Item> {
    Arc::new(Item::Struct(StructDef { name: name.to_string() }))
}

fn simple(segments: &[&str]) -> UseTree {
    UseTree::Simple {
        path: Path { segments: segments.iter().map(|s| s.to_string()).collect() },
    }
}

fn import(segments: &[&str]) -> Arc<Item> {
    Arc::new(Item::Use(UseStmt { tree: simple(segments) }))
}

fn import_tree(tree: UseTree) -> Arc<Item> {
    Arc::new(Item::Use(UseStmt { tree }))
}

fn names_of(db: &MemoryDb, def_map: &DefMap) -> HashSet<String> {
    def_map
        .items
        .values()
        .map(|item_def| db.lookup(item_def.name).unwrap().to_string())
        .collect()
}

#[test]
fn test_multi_module_def_collection() {
    let mut db = MemoryDb::new();

    let main_module = Module { items: vec![import(&["utils"]), func("main")] };
    let utils_module = Module { items: vec![strukt("Point"), func("helper")] };

    let main_fid = db.add_file("main.ny", main_module);
    let _utils_fid = db.add_file("utils.ny", utils_module);

    let resolver = Resolver::new(&db);
    let def_map = resolver.collect_defs_crate(main_fid);

    assert_eq!(def_map.items.len(), 3);

    let found_names = names_of(&db, &def_map);
    let expected_names: HashSet<String> =
        ["main", "Point", "helper"].iter().map(|s| s.to_string()).collect();
    assert_eq!(found_names, expected_names);

    for item in def_map.items.values() {
        match db.lookup(item.name).unwrap().as_str() {
            "main" => assert_eq!(item.kind, ItemKind::Function),
            "Point" => assert_eq!(item.kind, ItemKind::Struct),
            "helper" => assert_eq!(item.kind, ItemKind::Function),
            unexpected_name => panic!("Unexpected item found: {:?}", unexpected_name),
        }
    }
}

#[test]
fn test_cycle_terminates_and_collects_each_file_once() {
    let mut db = MemoryDb::new();

    let a = Module { items: vec![import(&["b"]), func("from_a")] };
    let b = Module { items: vec![import(&["a"]), func("from_b")] };

    let a_fid = db.add_file("a.ny", a);
    let _b_fid = db.add_file("b.ny", b);

    let def_map = Resolver::new(&db).collect_defs_crate(a_fid);

    assert_eq!(def_map.items.len(), 2);
    let expected: HashSet<String> = ["from_a", "from_b"].iter().map(|s| s.to_string()).collect();
    assert_eq!(names_of(&db, &def_map), expected);
}

#[test]
fn test_self_import_terminates() {
    let mut db = MemoryDb::new();
    let a = Module { items: vec![import(&["a"]), func("looper")] };
    let a_fid = db.add_file("a.ny", a);

    let def_map = Resolver::new(&db).collect_defs_crate(a_fid);

    assert_eq!(def_map.items.len(), 1);
}

#[test]
fn test_diamond_imports_visit_shared_file_once() {
    let mut db = MemoryDb::new();

    let main_module = Module { items: vec![import(&["left"]), import(&["right"]), func("main")] };
    let left = Module { items: vec![import(&["shared"]), func("from_left")] };
    let right = Module { items: vec![import(&["shared"]), func("from_right")] };
    let shared = Module { items: vec![strukt("Shared")] };

    let main_fid = db.add_file("main.ny", main_module);
    db.add_file("left.ny", left);
    db.add_file("right.ny", right);
    db.add_file("shared.ny", shared);

    let def_map = Resolver::new(&db).collect_defs_crate(main_fid);

    assert_eq!(def_map.items.len(), 4);
    let ids: HashSet<u32> = def_map.items.values().map(|d| d.def_id.0).collect();
    let expected_ids: HashSet<u32> = (0..4).collect();
    assert_eq!(ids, expected_ids);
    for (key, item) in def_map.items.iter() {
        assert_eq!(DefId(*key), item.def_id);
    }
}

#[test]
fn test_group_and_nested_imports_flatten() {
    let mut db = MemoryDb::new();

    let group = UseTree::Group {
        items: vec![
            simple(&["first"]),
            UseTree::Group { items: vec![simple(&["second"])] },
        ],
    };
    let main_module = Module { items: vec![import_tree(group), func("main")] };
    let first = Module { items: vec![func("from_first")] };
    let second = Module { items: vec![func("from_second")] };

    let main_fid = db.add_file("main.ny", main_module);
    db.add_file("first.ny", first);
    db.add_file("second.ny", second);

    let def_map = Resolver::new(&db).collect_defs_crate(main_fid);

    assert_eq!(def_map.items.len(), 3);
    let expected: HashSet<String> =
        ["main", "from_first", "from_second"].iter().map(|s| s.to_string()).collect();
    assert_eq!(names_of(&db, &def_map), expected);
}

#[test]
fn test_wildcard_import_enqueues_nothing() {
    let mut db = MemoryDb::new();

    let main_module = Module { items: vec![import_tree(UseTree::Wildcard), func("main")] };
    let other = Module { items: vec![func("unreachable_helper")] };

    let main_fid = db.add_file("main.ny", main_module);
    db.add_file("other.ny", other);

    let def_map = Resolver::new(&db).collect_defs_crate(main_fid);

    assert_eq!(def_map.items.len(), 1);
    let expected: HashSet<String> = ["main"].iter().map(|s| s.to_string()).collect();
    assert_eq!(names_of(&db, &def_map), expected);
}

#[test]
fn test_unresolvable_import_is_non_fatal() {
    let mut db = MemoryDb::new();

    let main_module =
        Module { items: vec![import(&["missing"]), import(&["utils"]), func("main")] };
    let utils_module = Module { items: vec![func("helper")] };

    let main_fid = db.add_file("main.ny", main_module);
    db.add_file("utils.ny", utils_module);

    let def_map = Resolver::new(&db).collect_defs_crate(main_fid);

    assert_eq!(def_map.items.len(), 2);
    let expected: HashSet<String> = ["main", "helper"].iter().map(|s| s.to_string()).collect();
    assert_eq!(names_of(&db, &def_map), expected);
}

#[test]
fn test_multi_segment_import_path_resolves() {
    let mut db = MemoryDb::new();

    let main_module = Module { items: vec![import(&["nested", "inner"]), func("main")] };
    let inner = Module { items: vec![func("deep_helper")] };

    let main_fid = db.add_file("main.ny", main_module);
    db.add_file("nested/inner.ny", inner);

    let def_map = Resolver::new(&db).collect_defs_crate(main_fid);

    assert_eq!(def_map.items.len(), 2);
    let expected: HashSet<String> =
        ["main", "deep_helper"].iter().map(|s| s.to_string()).collect();
    assert_eq!(names_of(&db, &def_map), expected);
}

#[test]
fn test_symbol_identity_across_files() {
    let mut db = MemoryDb::new();

    let main_module = Module { items: vec![import(&["other"]), func("shared_name"), func("only_here")] };
    let other = Module { items: vec![func("shared_name")] };

    let main_fid = db.add_file("main.ny", main_module);
    db.add_file("other.ny", other);

    let def_map = Resolver::new(&db).collect_defs_crate(main_fid);

    assert_eq!(def_map.items.len(), 3);
    let mut shared_symbols = Vec::new();
    let mut other_symbols = Vec::new();
    for item in def_map.items.values() {
        if db.lookup(item.name).unwrap().as_str() == "shared_name" {
            shared_symbols.push(item.name);
        } else {
            other_symbols.push(item.name);
        }
    }
    assert_eq!(shared_symbols.len(), 2);
    assert_eq!(shared_symbols[0], shared_symbols[1]);
    assert_eq!(other_symbols.len(), 1);
    assert!(other_symbols[0] != shared_symbols[0]);
}

#[test]
fn test_empty_entry_module_yields_empty_registry() {
    let mut db = MemoryDb::new();
    let main_fid = db.add_file("main.ny", Module { items: vec![] });

    let def_map = Resolver::new(&db).collect_defs_crate(main_fid);

    assert_eq!(def_map.items.len(), 0);
}

#[test]
fn test_def_ids_are_sequential_from_zero() {
    let mut db = MemoryDb::new();
    let main_module = Module { items: vec![func("first"), strukt("Second"), func("third")] };
    let main_fid = db.add_file("main.ny", main_module);

    let def_map = Resolver::new(&db).collect_defs_crate(main_fid);

    assert_eq!(def_map.items.len(), 3);
    assert_eq!(db.lookup(def_map.items[&0].name).unwrap(), "first");
    assert_eq!(db.lookup(def_map.items[&1].name).unwrap(), "Second");
    assert_eq!(db.lookup(def_map.items[&2].name).unwrap(), "third");
    assert_eq!(def_map.items[&1].kind, ItemKind::Struct);
}

#[test]
fn test_registry_entry_retains_syntax_node() {
    let mut db = MemoryDb::new();
    let main_module = Module { items: vec![func("only")] };
    let main_fid = db.add_file("main.ny", main_module);

    let def_map = Resolver::new(&db).collect_defs_crate(main_fid);

    let entry = &def_map.items[&0];
    match entry.ast_node.as_ref() {
        Item::Function(f) => assert_eq!(f.name, "only"),
        other => panic!("Unexpected node: {:?}", other),
    }
}

#[test]
fn test_def_id_allocator_is_sequential() {
    let mut alloc = DefIdAllocator::new();
    assert_eq!(alloc.new_def_id(), DefId(0));
    assert_eq!(alloc.new_def_id(), DefId(1));
    assert_eq!(alloc.new_def_id(), DefId(2));
}

#[test]
fn test_def_map_new_is_empty() {
    let def_map = DefMap::new();
    assert_eq!(def_map.items.len(), 0);
}
