use cruxlines::analysis::{cruxlines_from_inputs, group_edges_by_ecosystem};
use cruxlines::cache::{cache_file_name, cached_result, hex16, is_fresh, CacheStamp, CachedFileResult, FileCache, CACHE_VERSION};
use cruxlines::find_references::{FileResult, Location, ReferenceEdge};
use cruxlines::graph::build_file_graph;
use cruxlines::Ecosystem;

fn loc(path: &str, line: usize, column: usize, name: &str) -> Location {
    Location { path: path.to_string(), line, column, name: name.to_string() }
}

#[test]
fn groups_edges_without_extension_by_ecosystem() {
    let edge = ReferenceEdge {
        definition: loc("defs/alpha", 1, 1, "alpha"),
        usage: loc("use", 2, 1, "alpha"),
        ecosystem: Ecosystem::Python,
    };
    let grouped = group_edges_by_ecosystem(vec![edge]);
    let count: usize = grouped.len();
    assert_eq!(count, 1, "expected edge to be grouped by ecosystem");
}

#[test]
fn builds_usage_to_definition_edges() {
    let edge = ReferenceEdge { definition: loc("def.py", 1, 1, "foo"), usage: loc("use.py", 2, 5, "foo"), ecosystem: Ecosystem::Python };
    let rows = group_edges_by_ecosystem(vec![edge]);
    let graph = build_file_graph(Ecosystem::Python, &rows);
    let def_idx = graph.paths.iter().position(|p| p == "def.py").expect("def node");
    let use_idx = graph.paths.iter().position(|p| p == "use.py").expect("usage node");
    assert!(graph.edges.contains(&(use_idx, def_idx)));
}

#[test]
fn builds_graphs_per_language() {
    let edges = vec![
        ReferenceEdge { definition: loc("a.py", 1, 1, "foo"), usage: loc("b.py", 2, 1, "foo"), ecosystem: Ecosystem::Python },
        ReferenceEdge { definition: loc("a.rs", 1, 1, "bar"), usage: loc("b.rs", 2, 1, "bar"), ecosystem: Ecosystem::Rust },
    ];
    let rows = group_edges_by_ecosystem(edges);
    let python = build_file_graph(Ecosystem::Python, &rows);
    let rust = build_file_graph(Ecosystem::Rust, &rows);
    assert_eq!(python.edges.len(), 1);
    assert_eq!(rust.edges.len(), 1);
    assert_eq!(python.paths.len(), 2);
    assert!(python.paths.iter().all(|p| p.ends_with(".py")));
}

#[test]
fn file_graph_has_no_self_loops_or_duplicates() {
    let files = vec![
        ("a.py".to_string(), "def foo():\n    pass\n".to_string()),
        ("b.py".to_string(), "def foo():\n    pass\n".to_string()),
        ("c.py".to_string(), "from a import foo\nfrom b import foo\n\nfoo()\n".to_string()),
    ];
    let rows = cruxlines_from_inputs(files).expect("rows");
    let graph = build_file_graph(Ecosystem::Python, &rows);
    let named: Vec<(String, String)> =
        graph.edges.iter().map(|(u, d)| (graph.paths[*u].clone(), graph.paths[*d].clone())).collect();
    assert!(named.contains(&("c.py".to_string(), "a.py".to_string())));
    assert!(named.contains(&("c.py".to_string(), "b.py".to_string())));
    assert_eq!(named.len(), 2);
    assert!(named.iter().all(|(u, d)| u != d));
}

#[test]
fn same_file_uses_add_no_graph_edge() {
    let files = vec![("main.py".to_string(), "def add():\n    return 1\n\nadd()\n".to_string())];
    let rows = cruxlines_from_inputs(files).expect("rows");
    assert_eq!(rows.len(), 1);
    let graph = build_file_graph(Ecosystem::Python, &rows);
    assert!(graph.edges.is_empty());
    assert_eq!(graph.paths, vec!["main.py".to_string()]);
}

#[test]
fn cache_record_is_fresh_only_for_the_same_stamp() {
    let stamp = CacheStamp { mtime_secs: 1_700_000_000, mtime_nanos: 5, size: 42 };
    assert!(is_fresh(CACHE_VERSION, stamp, stamp));
    assert!(!is_fresh(CACHE_VERSION + 1, stamp, stamp));
    assert!(!is_fresh(CACHE_VERSION, stamp, CacheStamp { mtime_nanos: 6, ..stamp }));
    assert!(!is_fresh(CACHE_VERSION, stamp, CacheStamp { mtime_secs: 1, ..stamp }));
    assert!(!is_fresh(CACHE_VERSION, stamp, CacheStamp { size: 43, ..stamp }));
}

#[test]
fn cached_result_is_used_only_when_fresh() {
    let make = || CachedFileResult {
        version: CACHE_VERSION,
        stamp: CacheStamp { mtime_secs: 9, mtime_nanos: 9, size: 9 },
        result: FileResult { ecosystem: Ecosystem::Go, definitions: vec![], references: vec![], definition_lines: vec![] },
    };
    assert!(cached_result(make(), CacheStamp { mtime_secs: 9, mtime_nanos: 9, size: 9 }).is_some());
    assert!(cached_result(make(), CacheStamp { mtime_secs: 9, mtime_nanos: 9, size: 10 }).is_none());
}

#[test]
fn hex_names_are_sixteen_digits() {
    assert_eq!(hex16(0), "0000000000000000");
    assert_eq!(hex16(0xdead_beef), "00000000deadbeef");
    assert_eq!(hex16(u64::MAX), "ffffffffffffffff");
    assert_eq!(cache_file_name("/tmp/c", 255), "/tmp/c/00000000000000ff.bin");
}

#[test]
fn cache_paths_depend_on_the_source_path() {
    let cache = FileCache::new("/tmp/cache", "/repo");
    assert!(cache.cache_dir.starts_with("/tmp/cache/"));
    assert_eq!(cache.cache_dir.len(), "/tmp/cache/".len() + 16);
    let a = cache.cache_path("/repo/a.py");
    let b = cache.cache_path("/repo/b.py");
    assert_ne!(a, b);
    assert!(a.starts_with(&cache.cache_dir));
    assert!(a.ends_with(".bin"));
    assert_eq!(a, cache.cache_path("/repo/a.py"));
}
